//! Configuration data for the engine: the body template, its markers and
//! form fields, the tracking-link base URL and hosting-service settings.
//!
//! Loading and saving the configuration file, and reading environment
//! variables, happen outside the library; the values arrive here as plain
//! data.

use vstd::prelude::*;

verus! {

/// The built-in body template used when no configuration file supplies one.
pub const DEFAULT_TEMPLATE: &'static str = "Related PRs:\n<!-- RELATED_PR -->\n<!-- /RELATED_PR -->\n\n## This PR...\n{{description}}\n\n## Considerations and implementation\n{{implementation}}\n";

/// Tracking-link settings.
#[derive(Debug, Clone)]
pub struct JiraConfig {
    /// Base URL for ticket links (e.g. `https://jira.example.com/browse/`).
    pub url: Option<String>,
}

/// Markers delimiting the related-PR block inside a body.
#[derive(Debug, Clone)]
pub struct MarkerConfig {
    /// Start marker of the related-PR block.
    pub related_pr_start: String,
    /// End marker of the related-PR block.
    pub related_pr_end: String,
}

/// The kind of input a form field asks for.
#[derive(Debug, Clone, PartialEq, Eq, Structural)]
pub enum FieldType {
    /// Multi-line editor input.
    Editor,
    /// Single-line text input.
    Text,
}

/// One form field of the body template.
#[derive(Debug, Clone)]
pub struct FormField {
    /// Field name, matched against the `{{name}}` placeholder.
    pub name: String,
    /// Prompt text shown when the field is gathered.
    pub prompt: String,
    /// The kind of input.
    pub field_type: FieldType,
    /// Whether the field must be filled.
    pub required: bool,
    /// Default value offered for the field.
    pub default: Option<String>,
}

/// Body-template settings.
#[derive(Debug, Clone)]
pub struct TemplateConfig {
    /// The body template, holding `{{name}}` placeholders and the
    /// related-PR block markers.
    pub body: String,
    /// Markers of the related-PR block.
    pub markers: MarkerConfig,
    /// The form fields to gather.
    pub fields: Vec<FormField>,
}

/// Hosting-service settings.
#[derive(Debug, Clone)]
pub struct GitHubConfig {
    /// The service user whose open PRs are cross-referenced.
    pub user: Option<String>,
    /// Logins suggested by default when approvals are requested.
    pub default_reviewers: Vec<String>,
}

/// The whole configuration.
#[derive(Debug, Clone)]
pub struct Config {
    /// Tracking-link settings.
    pub jira: JiraConfig,
    /// Body-template settings.
    pub template: TemplateConfig,
    /// Hosting-service settings.
    pub github: GitHubConfig,
}

impl Default for JiraConfig {
    /// No tracking-link base URL.
    fn default() -> (r: Self)
        ensures
            r.url is None,
    {
        JiraConfig { url: None }
    }
}

impl Default for MarkerConfig {
    /// The built-in related-PR block markers.
    fn default() -> (r: Self)
        ensures
            r.related_pr_start@ == "<!-- RELATED_PR -->"@,
            r.related_pr_end@ == "<!-- /RELATED_PR -->"@,
    {
        MarkerConfig {
            related_pr_start: "<!-- RELATED_PR -->".to_owned(),
            related_pr_end: "<!-- /RELATED_PR -->".to_owned(),
        }
    }
}

impl Default for TemplateConfig {
    /// The built-in template: a related-PR block followed by a description
    /// section and an implementation section, each backed by a form field.
    fn default() -> (r: Self)
        ensures
            r.body@ == DEFAULT_TEMPLATE@,
            r.markers.related_pr_start@ == "<!-- RELATED_PR -->"@,
            r.markers.related_pr_end@ == "<!-- /RELATED_PR -->"@,
            r.fields@.len() == 2,
            r.fields@[0].name@ == "description"@,
            r.fields@[0].prompt@ == "What is this PR doing:"@,
            r.fields@[0].field_type == FieldType::Editor,
            r.fields@[0].required == true,
            r.fields@[0].default is None,
            r.fields@[1].name@ == "implementation"@,
            r.fields@[1].prompt@ == "Considerations and implementation:"@,
            r.fields@[1].field_type == FieldType::Editor,
            r.fields@[1].required == false,
            r.fields@[1].default is None,
    {
        let mut fields: Vec<FormField> = Vec::new();
        fields.push(
            FormField {
                name: "description".to_owned(),
                prompt: "What is this PR doing:".to_owned(),
                field_type: FieldType::Editor,
                required: true,
                default: None,
            },
        );
        fields.push(
            FormField {
                name: "implementation".to_owned(),
                prompt: "Considerations and implementation:".to_owned(),
                field_type: FieldType::Editor,
                required: false,
                default: None,
            },
        );
        TemplateConfig {
            body: DEFAULT_TEMPLATE.to_owned(),
            markers: MarkerConfig::default(),
            fields,
        }
    }
}

impl Default for GitHubConfig {
    /// No configured user and no suggested logins.
    fn default() -> (r: Self)
        ensures
            r.user is None,
            r.default_reviewers@.len() == 0,
    {
        GitHubConfig { user: None, default_reviewers: Vec::new() }
    }
}

impl Default for Config {
    /// All sections at their built-in defaults.
    fn default() -> (r: Self)
        ensures
            r.jira.url is None,
            r.template.body@ == DEFAULT_TEMPLATE@,
            r.template.markers.related_pr_start@ == "<!-- RELATED_PR -->"@,
            r.template.markers.related_pr_end@ == "<!-- /RELATED_PR -->"@,
            r.template.fields@.len() == 2,
            r.template.fields@[0].name@ == "description"@,
            r.template.fields@[1].name@ == "implementation"@,
            r.github.user is None,
            r.github.default_reviewers@.len() == 0,
    {
        Config {
            jira: JiraConfig::default(),
            template: TemplateConfig::default(),
            github: GitHubConfig::default(),
        }
    }
}

impl Config {
    /// The effective tracking-link base URL, if one is configured.
    pub fn jira_url(&self) -> (r: Option<&str>)
        ensures
            match r {
                Some(u) => self.jira.url matches Some(c) && u@ == c@,
                None => self.jira.url is None,
            },
    {
        match &self.jira.url {
            Some(u) => Some(u.as_str()),
            None => None,
        }
    }

    /// The configured hosting-service user, if any.
    pub fn github_user(&self) -> (r: Option<String>)
        ensures
            match r {
                Some(u) => self.github.user matches Some(c) && u@ == c@,
                None => self.github.user is None,
            },
    {
        match &self.github.user {
            Some(u) => Some(u.clone()),
            None => None,
        }
    }

    /// Fill settings that the configuration file left empty from the
    /// corresponding environment values, which the caller reads and hands
    /// in; an empty environment value counts as absent.
    pub fn apply_env_overrides(&mut self, jira_url_env: Option<String>, github_user_env: Option<
        String,
    >)
        ensures
            final(self).jira.url == (if old(self).jira.url is None && (jira_url_env matches Some(u)
                && u@.len() > 0) {
                jira_url_env
            } else {
                old(self).jira.url
            }),
            final(self).github.user == (if old(self).github.user is None && (github_user_env
                matches Some(u) && u@.len() > 0) {
                github_user_env
            } else {
                old(self).github.user
            }),
            final(self).template == old(self).template,
            final(self).github.default_reviewers == old(self).github.default_reviewers,
    {
        if self.jira.url.is_none() {
            if let Some(url) = jira_url_env {
                if url.as_str().unicode_len() > 0 {
                    self.jira.url = Some(url);
                }
            }
        }
        if self.github.user.is_none() {
            if let Some(user) = github_user_env {
                if user.as_str().unicode_len() > 0 {
                    self.github.user = Some(user);
                }
            }
        }
    }
}

/// Where the tag-history file lives under a configuration directory.
pub open spec fn tags_path_spec(dir: Seq<char>) -> Seq<char> {
    if dir.len() == 0 {
        "tags.txt"@
    } else if dir.last() == '/' {
        dir + "tags.txt"@
    } else {
        dir + "/"@ + "tags.txt"@
    }
}

/// The path of the tag-history file inside the given configuration
/// directory: the directory joined with `tags.txt`.
pub fn get_tags_path_with_dir(config_dir: &str) -> (r: String)
    ensures
        r@ == tags_path_spec(config_dir@),
{
    let dirlen = config_dir.unicode_len();
    let mut out = config_dir.to_owned();
    if dirlen > 0 && config_dir.get_char(dirlen - 1) != '/' {
        out.append("/");
    }
    out.append("tags.txt");
    proof {
        reveal_strlit("/");
        reveal_strlit("tags.txt");
        assert(out@ =~= tags_path_spec(config_dir@));
    }
    out
}

} // verus!
