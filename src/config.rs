use vstd::prelude::*;
use vstd::string::StringExecFns;

verus! {

/// The path that `Path::join` makes of `base` and `rest`.
pub uninterp spec fn joined(base: Seq<char>, rest: Seq<char>) -> Seq<char>;

/// Relies on `Path::join` (and a lossless conversion back, as both parts
/// are UTF-8): `rest` appended to `base` with a separator between them.
#[verifier::external_body]
fn join_path(base: &str, rest: &str) -> (r: String)
    ensures
        r@ == joined(base@, rest@),
{
    std::path::Path::new(base).join(rest).to_string_lossy().into_owned()
}

/// The user's settings.
#[derive(Clone, Debug)]
pub struct Config {
    pub date_format: String,
    pub time_format: String,
    pub default_path: String,
    pub index_path: String,
    pub default_calendar_span: String,
    pub print_success_messages: bool,
    pub print_warning_messages: bool,
    pub print_error_messages: bool,
    pub prompt_text: String,
    pub prompt_color: String,
    pub prompt_bold: bool,
    pub prompt_italic: bool,
    pub prompt_underline: bool,
}

impl Config {
    /// The settings used when none are stored, for a user whose home
    /// directory is `home`: calendars under `.calmar`, the index under
    /// `.config/calmar/index.json`, a week's span, all messages on, and a
    /// bold bright white prompt.
    pub fn default(home: &str) -> (r: Self)
        ensures
            r.date_format@ == "DD/MM/YYYY"@,
            r.time_format@ == "HH:MM"@,
            r.default_path@ == joined(home@, ".calmar"@),
            r.index_path@ == joined(home@, ".config/calmar/index.json"@),
            r.default_calendar_span@ == "7d"@,
            r.print_success_messages,
            r.print_warning_messages,
            r.print_error_messages,
            r.prompt_text@ == "[calmar]"@,
            r.prompt_color@ == "bright_white"@,
            r.prompt_bold,
            !r.prompt_italic,
            !r.prompt_underline,
    {
        Config {
            date_format: String::from_str("DD/MM/YYYY"),
            time_format: String::from_str("HH:MM"),
            default_path: join_path(home, ".calmar"),
            index_path: join_path(home, ".config/calmar/index.json"),
            default_calendar_span: String::from_str("7d"),
            print_success_messages: true,
            print_warning_messages: true,
            print_error_messages: true,
            prompt_text: String::from_str("[calmar]"),
            // The colours on offer: black, red, green, yellow, blue,
            // magenta, cyan, white, and bright_ before each of them.
            prompt_color: String::from_str("bright_white"),
            prompt_bold: true,
            prompt_italic: false,
            prompt_underline: false,
        }
    }
}

} // verus!
