//! The settings of the tool: where themes live, how copies are named, and
//! which file extensions are scanned, with their accent colors.
use vstd::prelude::*;
use vstd::string::*;

verus! {

/// How the lists of themes and files are ordered.
#[derive(Clone, Copy, PartialEq, Eq, Structural, Debug)]
pub enum SortMode {
    Name,
    Color,
    LastOpened,
}

impl Default for SortMode {
    fn default() -> (m: SortMode)
        ensures
            m == SortMode::LastOpened,
    {
        SortMode::LastOpened
    }
}

/// Whether literals are scanned in files with an extension, and the accent
/// color (hex) that the extension is shown in.
#[derive(Clone, Debug)]
pub struct ExtensionSetting {
    pub enabled: bool,
    pub color: String,
}

#[derive(Clone, Debug)]
pub struct GeneralConfig {
    pub themes_path: String,
    pub save_prefix: String,
}

/// All settings; each extension (with its dot) appears once.
#[derive(Clone, Debug)]
pub struct AppConfig {
    pub general: GeneralConfig,
    pub extensions: Vec<(String, ExtensionSetting)>,
}

/// `rel` appended to the path `base` as a path component.
pub open spec fn path_joined(base: Seq<char>, rel: Seq<char>) -> Seq<char> {
    if base.len() == 0 || base.last() == '/' {
        base + rel
    } else {
        base + seq!['/'] + rel
    }
}

/// Where themes are looked for by default, given the home directory.
pub open spec fn default_themes_path(home: Option<Seq<char>>) -> Seq<char> {
    match home {
        Some(h) => path_joined(h, ".config/omarchy/themes"@),
        None => "/home/your/.config/omarchy/themes"@,
    }
}

/// The extensions scanned by default, each with its accent color.
pub open spec fn default_extensions() -> Seq<(Seq<char>, bool, Seq<char>)> {
    seq![
        (".css"@, true, "#2646dc"@),
        (".toml"@, true, "#ff9f43"@),
        (".theme"@, true, "#5f27cd"@),
        (".conf"@, true, "#1dd1a1"@),
        (".lua"@, true, "#22a6b3"@),
        (".json"@, true, "#f4b426"@),
        (".yaml"@, true, "#4ecdcd"@),
        (".ini"@, true, "#ff9ff3"@),
    ]
}

pub open spec fn extension_view(e: (String, ExtensionSetting)) -> (Seq<char>, bool, Seq<char>) {
    (e.0@, e.1.enabled, e.1.color@)
}

/// Relies on `dirs::home_dir`: the user's home directory where it can be
/// found. It comes from the environment, so nothing is promised of it.
#[verifier::external_body]
fn home_dir_text() -> (r: Option<String>) {
    match dirs::home_dir() {
        Some(p) => Some(p.to_string_lossy().to_string()),
        None => None,
    }
}

fn setting(ext: &str, color: &str) -> (r: (String, ExtensionSetting))
    ensures
        extension_view(r) == (ext@, true, color@),
{
    (String::from_str(ext), ExtensionSetting { enabled: true, color: String::from_str(color) })
}

/// The extensions scanned when no settings file is found.
pub fn get_default_extensions() -> (r: Vec<(String, ExtensionSetting)>)
    ensures
        r@.map_values(|e: (String, ExtensionSetting)| extension_view(e)) == default_extensions(),
{
    let mut v: Vec<(String, ExtensionSetting)> = Vec::new();
    v.push(setting(".css", "#2646dc"));
    v.push(setting(".toml", "#ff9f43"));
    v.push(setting(".theme", "#5f27cd"));
    v.push(setting(".conf", "#1dd1a1"));
    v.push(setting(".lua", "#22a6b3"));
    v.push(setting(".json", "#f4b426"));
    v.push(setting(".yaml", "#4ecdcd"));
    v.push(setting(".ini", "#ff9ff3"));
    assert(v@.map_values(|e: (String, ExtensionSetting)| extension_view(e)) =~= default_extensions());
    v
}

impl GeneralConfig {
    /// The default settings for a user whose home directory is `home`.
    pub fn with_home(home: Option<String>) -> (c: GeneralConfig)
        ensures
            c.themes_path@ == default_themes_path(
                match home {
                    Some(h) => Some(h@),
                    None => None,
                },
            ),
            c.save_prefix@ == "new-"@,
    {
        let themes_path = match home {
            Some(h) => {
                let n = h.as_str().unicode_len();
                let mut p = h;
                if n == 0 || p.as_str().get_char(n - 1) == '/' {
                    p.append(".config/omarchy/themes");
                } else {
                    proof {
                        reveal_strlit("/");
                    }
                    p.append("/");
                    p.append(".config/omarchy/themes");
                }
                p
            },
            None => String::from_str("/home/your/.config/omarchy/themes"),
        };
        GeneralConfig { themes_path, save_prefix: String::from_str("new-") }
    }
}

impl Default for GeneralConfig {
    /// The default settings, with the themes under the user's home directory.
    fn default() -> (c: GeneralConfig)
        ensures
            c.save_prefix@ == "new-"@,
            exists|h: Option<Seq<char>>| c.themes_path@ == default_themes_path(h),
    {
        let c = GeneralConfig::with_home(home_dir_text());
        c
    }
}

impl AppConfig {
    /// The settings used when no settings file can be read.
    pub fn fallback() -> (c: AppConfig)
        ensures
            c.general.save_prefix@ == "new-"@,
            exists|h: Option<Seq<char>>| c.general.themes_path@ == default_themes_path(h),
            c.extensions@.map_values(|e: (String, ExtensionSetting)| extension_view(e))
                == default_extensions(),
    {
        AppConfig { general: GeneralConfig::default(), extensions: get_default_extensions() }
    }
}

} // verus!
