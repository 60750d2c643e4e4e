//! The application settings and where they live.
use vstd::prelude::*;
use crate::paths::PathText;
use crate::text::strings_view;

verus! {

/// The persisted settings.
pub struct AppConfig {
    pub steam_path: String,
    pub gl_path: String,
    pub steamless_path: String,
    pub api_key: String,
    pub enable_stealth_mode: bool,
    pub active_profile: String,
    pub family_godmode_ids: Vec<String>,
    pub target_language: String,
}

pub struct ConfigModel {
    pub steam_path: Seq<char>,
    pub gl_path: Seq<char>,
    pub steamless_path: Seq<char>,
    pub api_key: Seq<char>,
    pub enable_stealth_mode: bool,
    pub active_profile: Seq<char>,
    pub family_godmode_ids: Seq<Seq<char>>,
    pub target_language: Seq<char>,
}

impl View for AppConfig {
    type V = ConfigModel;

    open spec fn view(&self) -> ConfigModel {
        ConfigModel {
            steam_path: self.steam_path@,
            gl_path: self.gl_path@,
            steamless_path: self.steamless_path@,
            api_key: self.api_key@,
            enable_stealth_mode: self.enable_stealth_mode,
            active_profile: self.active_profile@,
            family_godmode_ids: strings_view(self.family_godmode_ids@),
            target_language: self.target_language@,
        }
    }
}

/// The settings a fresh installation starts from, given the Steam folder found.
pub open spec fn default_model(steam_path: Seq<char>) -> ConfigModel {
    ConfigModel {
        steam_path: steam_path,
        gl_path: Seq::empty(),
        steamless_path: Seq::empty(),
        api_key: Seq::empty(),
        enable_stealth_mode: true,
        active_profile: "Default"@,
        family_godmode_ids: Seq::empty(),
        target_language: "italian"@,
    }
}

/// The language that depot filtering targets when the settings name none.
pub fn default_language() -> (r: String)
    ensures
        r@ == "italian"@,
{
    "italian".to_string()
}

pub fn copy_strings(v: &Vec<String>) -> (r: Vec<String>)
    ensures
        strings_view(r@) == strings_view(v@),
{
    let mut r: Vec<String> = Vec::new();
    let mut i: usize = 0;
    while i < v.len()
        invariant
            i <= v.len(),
            strings_view(r@) == strings_view(v@.take(i as int)),
        decreases v.len() - i,
    {
        let s = v[i].clone();
        proof {
            assert(v@.take(i as int + 1) =~= v@.take(i as int).push(v@[i as int]));
            crate::text::lemma_strings_view_push(r@, s);
            crate::text::lemma_strings_view_push(v@.take(i as int), v@[i as int]);
        }
        r.push(s);
        i = i + 1;
    }
    assert(v@.take(v.len() as int) =~= v@);
    r
}

impl AppConfig {
    /// The default settings around the Steam folder that was found, or an empty
    /// path when none was.
    pub fn defaults_with(steam_path: Option<String>) -> (r: AppConfig)
        ensures
            r@ == default_model(match steam_path {
                Some(p) => p@,
                None => Seq::empty(),
            }),
    {
        let steam = match steam_path {
            Some(p) => p,
            None => String::new(),
        };
        let r = AppConfig {
            steam_path: steam,
            gl_path: String::new(),
            steamless_path: String::new(),
            api_key: String::new(),
            enable_stealth_mode: true,
            active_profile: "Default".to_string(),
            family_godmode_ids: Vec::new(),
            target_language: "italian".to_string(),
        };
        assert(strings_view(r.family_godmode_ids@) =~= Seq::empty());
        r
    }

    /// A field-by-field copy.
    pub fn copy(&self) -> (r: AppConfig)
        ensures
            r@ == self@,
    {
        AppConfig {
            steam_path: self.steam_path.clone(),
            gl_path: self.gl_path.clone(),
            steamless_path: self.steamless_path.clone(),
            api_key: self.api_key.clone(),
            enable_stealth_mode: self.enable_stealth_mode,
            active_profile: self.active_profile.clone(),
            family_godmode_ids: copy_strings(&self.family_godmode_ids),
            target_language: self.target_language.clone(),
        }
    }
}

/// The settings in memory, with the file they are saved to.
pub struct ConfigManager {
    pub config: AppConfig,
    pub file_path: PathText,
}

/// The settings file, next to the executable when its folder is known.
pub fn config_path_in(exe_dir: Option<&str>) -> (r: PathText)
    ensures
        r@ == match exe_dir {
            Some(d) => seq![d@, "darkcore_config.json"@],
            None => seq!["darkcore_config.json"@],
        },
{
    match exe_dir {
        Some(d) => PathText::new(d).join("darkcore_config.json"),
        None => PathText::new("darkcore_config.json"),
    }
}

impl ConfigManager {
    /// Starts from the settings read from the file, or from the defaults around
    /// the Steam folder found when there were none to read.
    pub fn new(file_path: PathText, loaded: Option<AppConfig>, found_steam: Option<String>) -> (r: ConfigManager)
        ensures
            r.file_path@ == file_path@,
            r.config@ == match loaded {
                Some(c) => c@,
                None => default_model(match found_steam {
                    Some(p) => p@,
                    None => Seq::empty(),
                }),
            },
    {
        let config = match loaded {
            Some(c) => c,
            None => AppConfig::defaults_with(found_steam),
        };
        ConfigManager { config, file_path }
    }

    /// A copy of the current settings.
    pub fn get(&self) -> (r: AppConfig)
        ensures
            r@ == self.config@,
    {
        self.config.copy()
    }

    /// Replaces the settings; the caller then saves them to `file_path`.
    pub fn update(&mut self, new_config: AppConfig)
        ensures
            final(self).config@ == new_config@,
            final(self).file_path@ == old(self).file_path@,
    {
        self.config = new_config;
    }
}

/// `'/'` turned into `'\\'`, every other character kept.
pub open spec fn backslashed(s: Seq<char>) -> Seq<char> {
    s.map_values(|c: char| if c == '/' { '\\' } else { c })
}

/// The install folders worth checking for Steam, in order: the registry's
/// `SteamPath` with its slashes turned into backslashes, when it was read, then
/// the usual install locations.
pub open spec fn steam_candidates(registry_value: Option<Seq<char>>) -> Seq<Seq<char>> {
    let usual = seq![
        "C:\\Program Files (x86)\\Steam"@,
        "C:\\Program Files\\Steam"@,
        "D:\\Steam"@,
        "E:\\Steam"@
    ];
    match registry_value {
        Some(v) => seq![backslashed(v)] + usual,
        None => usual,
    }
}

pub fn steam_path_candidates(registry_value: Option<&str>) -> (r: Vec<String>)
    ensures
        strings_view(r@) == steam_candidates(match registry_value {
            Some(v) => Some(v@),
            None => None,
        }),
{
    let mut r: Vec<String> = Vec::new();
    match registry_value {
        Some(v) => {
            let cs = crate::text::chars_of(v);
            let mut out = String::new();
            let mut i: usize = 0;
            while i < cs.len()
                invariant
                    i <= cs.len(),
                    cs@ == v@,
                    out@ == backslashed(v@).take(i as int),
                decreases cs.len() - i,
            {
                let c = cs[i];
                if c == '/' {
                    out.push('\\');
                } else {
                    out.push(c);
                }
                assert(backslashed(v@).take(i as int + 1) =~= backslashed(v@).take(i as int).push(backslashed(v@)[i as int]));
                i = i + 1;
            }
            assert(backslashed(v@).take(cs.len() as int) =~= backslashed(v@));
            r.push(out);
        },
        None => {},
    }
    r.push("C:\\Program Files (x86)\\Steam".to_string());
    r.push("C:\\Program Files\\Steam".to_string());
    r.push("D:\\Steam".to_string());
    r.push("E:\\Steam".to_string());
    proof {
        reveal_strlit("C:\\Program Files (x86)\\Steam");
        let rv = match registry_value {
            Some(v) => Some(v@),
            None => None,
        };
        assert(strings_view(r@) =~= steam_candidates(rv));
    }
    r
}

/// The first candidate that exists on disk, `present` telling which do.
pub fn find_default_steam(candidates: &Vec<String>, present: &Vec<bool>) -> (r: Option<String>)
    requires
        present.len() == candidates.len(),
    ensures
        match r {
            Some(p) => exists|i: int| {
                &&& 0 <= i < candidates.len()
                &&& #[trigger] present@[i]
                &&& p@ == candidates@[i]@
                &&& forall|j: int| 0 <= j < i ==> !present@[j]
            },
            None => forall|i: int| 0 <= i < present.len() ==> !#[trigger] present@[i],
        },
{
    let mut i: usize = 0;
    while i < candidates.len()
        invariant
            i <= candidates.len(),
            present.len() == candidates.len(),
            forall|j: int| 0 <= j < i ==> !#[trigger] present@[j],
        decreases candidates.len() - i,
    {
        if present[i] {
            let p = candidates[i].clone();
            assert(present@[i as int]);
            return Some(p);
        }
        i = i + 1;
    }
    None
}

} // verus!
