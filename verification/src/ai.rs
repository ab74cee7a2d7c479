//! Summary templates and stored summaries.

use vstd::prelude::*;

verus! {

/// A summary template; its body holds `{{transcript}}` and other fields.
pub struct Template {
    pub id: String,
    pub name: String,
    pub description: String,
    pub body: String,
    pub builtin: bool,
}

/// A stored summary. `structured` is the JSON text of the structured
/// summary; `created_at` is milliseconds since the Unix epoch (UTC).
pub struct Summary {
    pub meeting_id: String,
    pub template_id: String,
    pub markdown: String,
    pub structured: String,
    pub model: String,
    pub created_at: i64,
}

/// The template tried when the asked-for one is missing.
pub const GENERAL_TEMPLATE: &'static str = "general";

/// The summary run's error when no template can be found.
pub const NO_TEMPLATE: &'static str = "no summary template";

/// The id of the template a summary asks for: the given one, else the
/// default one from the settings.
pub fn summary_template_id(given: Option<&str>, default_id: &str) -> (r: String)
    ensures
        r@ == (match given {
            Some(g) => g@,
            None => default_id@,
        }),
{
    match given {
        Some(g) => g.to_owned(),
        None => default_id.to_owned(),
    }
}

/// The template a summary uses: the one asked for when it exists, else the
/// `general` one, else none (an error).
pub fn summary_template(found: Option<Template>, general: Option<Template>) -> (r: Result<Template, String>)
    ensures
        found is Some ==> r is Ok && r->Ok_0 == found->Some_0,
        found is None && general is Some ==> r is Ok && r->Ok_0 == general->Some_0,
        found is None && general is None ==> r is Err && r->Err_0@ == NO_TEMPLATE@,
{
    match found {
        Some(t) => Ok(t),
        None => match general {
            Some(g) => Ok(g),
            None => Err(NO_TEMPLATE.to_owned()),
        },
    }
}

} // verus!
