//! The injection list: `AppList/{n}.txt` files, one app id each, and the
//! library view built from it.
use vstd::prelude::*;
use crate::api::opt_text;
use crate::order::{stable_order, stable_order_by_key};
use crate::paths::PathText;
use crate::profiles::last_index_of;
use crate::text::{concat, concat3, decimal, decimal_string, has_prefix, parse_u64, parse_u64_text,
    starts_with_str, strings_view, text_eq, to_lowercase_text, trim_text, trimmed, lower_text};

verus! {

/// One entry of the library view.
pub struct GameProfile {
    pub app_id: String,
    pub name: String,
    pub filename: String,
    pub parent_id: Option<String>,
    /// `game`, `dlc` or `depot`.
    pub item_type: String,
    pub is_installed: bool,
    /// `injected`, `family_godmode` or `family_shared`.
    pub injection_status: String,
    pub pending_update: Option<String>,
}

pub struct ProfileModel {
    pub app_id: Seq<char>,
    pub name: Seq<char>,
    pub filename: Seq<char>,
    pub parent_id: Option<Seq<char>>,
    pub item_type: Seq<char>,
    pub is_installed: bool,
    pub injection_status: Seq<char>,
    pub pending_update: Option<Seq<char>>,
}

impl View for GameProfile {
    type V = ProfileModel;

    open spec fn view(&self) -> ProfileModel {
        ProfileModel {
            app_id: self.app_id@,
            name: self.name@,
            filename: self.filename@,
            parent_id: opt_text(self.parent_id),
            item_type: self.item_type@,
            is_installed: self.is_installed,
            injection_status: self.injection_status@,
            pending_update: opt_text(self.pending_update),
        }
    }
}

pub open spec fn profiles_view(ps: Seq<GameProfile>) -> Seq<ProfileModel> {
    ps.map_values(|p: GameProfile| p@)
}

/// The folders the list lives in.
pub struct AppListManager {
    pub gl_path: PathText,
    pub steam_path: PathText,
}

/// A lookup table (app id to name, child to parent, app id to type, ...).
pub open spec fn pairs_view(t: Seq<(String, String)>) -> Seq<(Seq<char>, Seq<char>)> {
    t.map_values(|p: (String, String)| (p.0@, p.1@))
}

/// The value stored under a key: the first entry with that key.
pub open spec fn lookup_pair(t: Seq<(Seq<char>, Seq<char>)>, key: Seq<char>) -> Option<Seq<char>>
    decreases t.len(),
{
    if t.len() == 0 {
        None
    } else if t[0].0 == key {
        Some(t[0].1)
    } else {
        lookup_pair(t.drop_first(), key)
    }
}

/// The value stored under a key.
pub fn find_value(t: &Vec<(String, String)>, key: &str) -> (r: Option<String>)
    ensures
        opt_text(r) == lookup_pair(pairs_view(t@), key@),
{
    let mut i: usize = 0;
    assert(pairs_view(t@).skip(0) =~= pairs_view(t@));
    while i < t.len()
        invariant
            i <= t.len(),
            lookup_pair(pairs_view(t@), key@) == lookup_pair(pairs_view(t@).skip(i as int), key@),
        decreases t.len() - i,
    {
        let ghost rest = pairs_view(t@).skip(i as int);
        assert(rest[0] == (t@[i as int].0@, t@[i as int].1@));
        if text_eq(&t[i].0, key) {
            return Some(t[i].1.clone());
        }
        assert(rest.drop_first() =~= pairs_view(t@).skip(i as int + 1));
        i = i + 1;
    }
    None
}

/// Whether a list of texts holds one.
pub fn holds_text(v: &Vec<String>, s: &str) -> (r: bool)
    ensures
        r == strings_view(v@).contains(s@),
{
    let mut i: usize = 0;
    while i < v.len()
        invariant
            i <= v.len(),
            forall|k: int| 0 <= k < i ==> #[trigger] strings_view(v@)[k] != s@,
        decreases v.len() - i,
    {
        if text_eq(&v[i], s) {
            assert(strings_view(v@)[i as int] == s@);
            return true;
        }
        i = i + 1;
    }
    false
}

/// Not yet given a real name.
pub open spec fn unresolved(name: Seq<char>) -> bool {
    name == "Unknown"@ || has_prefix(name, "AppID"@)
}

/// The name shown for an app id: the cached name; else, for content of a
/// known parent, the parent's name with ` (Content)`; else `Depot (id)` for a
/// depot with a manifest; else `AppID id`.
pub open spec fn resolved_name(
    app_id: Seq<char>,
    cache: Seq<(Seq<char>, Seq<char>)>,
    relationships: Seq<(Seq<char>, Seq<char>)>,
    depot_ids: Seq<Seq<char>>,
) -> Seq<char> {
    let n0 = match lookup_pair(cache, app_id) {
        Some(n) => n,
        None => "Unknown"@,
    };
    let n1 = if unresolved(n0) {
        match lookup_pair(relationships, app_id) {
            Some(p) => match lookup_pair(cache, p) {
                Some(pn) => pn + " (Content)"@,
                None => n0,
            },
            None => n0,
        }
    } else {
        n0
    };
    let n2 = if unresolved(n1) && depot_ids.contains(app_id) {
        "Depot ("@ + app_id + ")"@
    } else {
        n1
    };
    if n2 == "Unknown"@ {
        "AppID "@ + app_id
    } else {
        n2
    }
}

/// The type recorded for the app, else `dlc` for a child, else `game`.
pub open spec fn item_type_of(
    app_id: Seq<char>,
    types: Seq<(Seq<char>, Seq<char>)>,
    relationships: Seq<(Seq<char>, Seq<char>)>,
) -> Seq<char> {
    match lookup_pair(types, app_id) {
        Some(t) => t,
        None => if lookup_pair(relationships, app_id) is Some {
            "dlc"@
        } else {
            "game"@
        },
    }
}

/// The increment of the app id that the status rule computes does not overflow.
pub open spec fn status_defined(
    app_id: Seq<char>,
    family_ids: Seq<Seq<char>>,
    relationships: Seq<(Seq<char>, Seq<char>)>,
) -> bool {
    !family_ids.contains(app_id) && lookup_pair(relationships, app_id) is None
        ==> parse_u64(app_id) != Some(u64::MAX)
}

/// `family_godmode` when forced; a child is `injected`; a root game is
/// `injected` when its base depot (its number plus one) is on the list, and
/// `family_shared` otherwise.
pub open spec fn injection_status_of(
    app_id: Seq<char>,
    family_ids: Seq<Seq<char>>,
    relationships: Seq<(Seq<char>, Seq<char>)>,
    applist_ids: Seq<Seq<char>>,
) -> Seq<char> {
    if family_ids.contains(app_id) {
        "family_godmode"@
    } else if lookup_pair(relationships, app_id) is None {
        match parse_u64(app_id) {
            Some(n) => if applist_ids.contains(decimal((n + 1) as nat)) {
                "injected"@
            } else {
                "family_shared"@
            },
            None => "family_shared"@,
        }
    } else {
        "injected"@
    }
}

/// What the library view says of one listed app id.
pub open spec fn entry_model(
    app_id: Seq<char>,
    filename: Seq<char>,
    is_installed: bool,
    tables: TablesModel,
    applist_ids: Seq<Seq<char>>,
    depot_ids: Seq<Seq<char>>,
) -> ProfileModel {
    ProfileModel {
        app_id: app_id,
        name: resolved_name(app_id, tables.cache, tables.relationships, depot_ids),
        filename: filename,
        parent_id: lookup_pair(tables.relationships, app_id),
        item_type: item_type_of(app_id, tables.types, tables.relationships),
        is_installed: is_installed,
        injection_status: injection_status_of(app_id, tables.family_ids, tables.relationships, applist_ids),
        pending_update: lookup_pair(tables.pending, app_id),
    }
}

/// The tables the library view is built from: cached names, child-to-parent
/// relationships, recorded types, forced family ids, and pending update
/// messages by app id.
pub struct ViewTables {
    pub cache: Vec<(String, String)>,
    pub relationships: Vec<(String, String)>,
    pub types: Vec<(String, String)>,
    pub family_ids: Vec<String>,
    pub pending: Vec<(String, String)>,
}

pub struct TablesModel {
    pub cache: Seq<(Seq<char>, Seq<char>)>,
    pub relationships: Seq<(Seq<char>, Seq<char>)>,
    pub types: Seq<(Seq<char>, Seq<char>)>,
    pub family_ids: Seq<Seq<char>>,
    pub pending: Seq<(Seq<char>, Seq<char>)>,
}

impl View for ViewTables {
    type V = TablesModel;

    open spec fn view(&self) -> TablesModel {
        TablesModel {
            cache: pairs_view(self.cache@),
            relationships: pairs_view(self.relationships@),
            types: pairs_view(self.types@),
            family_ids: strings_view(self.family_ids@),
            pending: pairs_view(self.pending@),
        }
    }
}

/// The name shown for an app id.
pub fn resolve_name(app_id: &str, tables: &ViewTables, depot_ids: &Vec<String>) -> (r: String)
    ensures
        r@ == resolved_name(app_id@, tables@.cache, tables@.relationships, strings_view(depot_ids@)),
{
    let mut name = match find_value(&tables.cache, app_id) {
        Some(n) => n,
        None => "Unknown".to_string(),
    };
    if text_eq(&name, "Unknown") || starts_with_str(&name, "AppID") {
        match find_value(&tables.relationships, app_id) {
            Some(p) => match find_value(&tables.cache, &p) {
                Some(pn) => {
                    name = concat(&pn, " (Content)");
                },
                None => {},
            },
            None => {},
        }
    }
    if (text_eq(&name, "Unknown") || starts_with_str(&name, "AppID")) && holds_text(depot_ids, app_id) {
        name = concat3("Depot (", app_id, ")");
    }
    if text_eq(&name, "Unknown") {
        name = concat("AppID ", app_id);
    }
    name
}

/// The library-view entry for one listed app id.
pub fn classify_entry(
    app_id: &str,
    filename: &str,
    is_installed: bool,
    tables: &ViewTables,
    applist_ids: &Vec<String>,
    depot_ids: &Vec<String>,
) -> (r: GameProfile)
    requires
        status_defined(app_id@, tables@.family_ids, tables@.relationships),
    ensures
        r@ == entry_model(app_id@, filename@, is_installed, tables@, strings_view(applist_ids@), strings_view(depot_ids@)),
{
    let name = resolve_name(app_id, tables, depot_ids);
    let parent_id = find_value(&tables.relationships, app_id);
    let has_parent = parent_id.is_some();
    let item_type = match find_value(&tables.types, app_id) {
        Some(t) => t,
        None => if has_parent {
            "dlc".to_string()
        } else {
            "game".to_string()
        },
    };
    let injection_status = if holds_text(&tables.family_ids, app_id) {
        "family_godmode".to_string()
    } else if !has_parent {
        match parse_u64_text(app_id) {
            Some(n) => {
                let base_depot = decimal_string(n + 1);
                if holds_text(applist_ids, &base_depot) {
                    "injected".to_string()
                } else {
                    "family_shared".to_string()
                }
            },
            None => "family_shared".to_string(),
        }
    } else {
        "injected".to_string()
    };
    let pending_update = find_value(&tables.pending, app_id);
    GameProfile {
        app_id: app_id.to_string(),
        name,
        filename: filename.to_string(),
        parent_id,
        item_type,
        is_installed,
        injection_status,
        pending_update,
    }
}


/// A `*.txt` file of the list folder: its name, its text when it could be
/// read, and whether the app id it holds has an app manifest installed.
pub struct ListedFile {
    pub file_name: String,
    pub content: Option<String>,
    pub installed: bool,
}

pub struct ListedModel {
    pub file_name: Seq<char>,
    pub content: Option<Seq<char>>,
    pub installed: bool,
}

impl View for ListedFile {
    type V = ListedModel;

    open spec fn view(&self) -> ListedModel {
        ListedModel { file_name: self.file_name@, content: opt_text(self.content), installed: self.installed }
    }
}

pub open spec fn listed_view(fs: Seq<ListedFile>) -> Seq<ListedModel> {
    fs.map_values(|f: ListedFile| f@)
}

/// A file name without its extension: the text before the last dot, a
/// leading dot not counting.
pub open spec fn file_stem_of(f: Seq<char>) -> Seq<char> {
    match last_index_of(f, '.') {
        Some(p) => if p > 0 { f.take(p) } else { f },
        None => f,
    }
}

/// The list position a slot file stands for: its stem as a 32-bit number,
/// 9999 when it is none.
pub open spec fn slot_key(f: Seq<char>) -> u64 {
    match parse_u64(file_stem_of(f)) {
        Some(n) => if n <= u32::MAX { n } else { 9999 },
        None => 9999,
    }
}

pub open spec fn slot_keys(fs: Seq<ListedModel>) -> Seq<u64> {
    fs.map_values(|f: ListedModel| slot_key(f.file_name))
}

/// The position of the first `c` in `s`.
pub open spec fn first_index_of(s: Seq<char>, c: char) -> Option<int>
    decreases s.len(),
{
    if s.len() == 0 {
        None
    } else {
        match first_index_of(s.drop_last(), c) {
            Some(i) => Some(i),
            None => if s.last() == c { Some(s.len() - 1) } else { None },
        }
    }
}

/// The depot a manifest file in `depotcache` belongs to: its stem up to the
/// first underscore.
pub open spec fn depot_id_of(f: Seq<char>) -> Option<Seq<char>> {
    let st = file_stem_of(f);
    match first_index_of(st, '_') {
        Some(i) => Some(st.take(i)),
        None => None,
    }
}

/// The depots of a `depotcache/*.manifest` listing, in order.
pub open spec fn depot_ids_of(names: Seq<Seq<char>>) -> Seq<Seq<char>>
    decreases names.len(),
{
    if names.len() == 0 {
        Seq::empty()
    } else {
        let rest = depot_ids_of(names.drop_last());
        match depot_id_of(names.last()) {
            Some(d) => rest.push(d),
            None => rest,
        }
    }
}

/// The app ids the readable list files hold, in listing order.
pub open spec fn listed_ids(fs: Seq<ListedModel>) -> Seq<Seq<char>>
    decreases fs.len(),
{
    if fs.len() == 0 {
        Seq::empty()
    } else {
        let rest = listed_ids(fs.drop_last());
        match fs.last().content {
            Some(c) => rest.push(trimmed(c)),
            None => rest,
        }
    }
}

/// The library-view entries for the files at the given positions, skipping
/// unreadable ones.
pub open spec fn view_entries(
    order: Seq<usize>,
    fs: Seq<ListedModel>,
    tables: TablesModel,
    applist_ids: Seq<Seq<char>>,
    depot_ids: Seq<Seq<char>>,
) -> Seq<ProfileModel>
    decreases order.len(),
{
    if order.len() == 0 {
        Seq::empty()
    } else {
        let rest = view_entries(order.drop_last(), fs, tables, applist_ids, depot_ids);
        let f = fs[order.last() as int];
        match f.content {
            Some(c) => rest.push(entry_model(trimmed(c), f.file_name, f.installed, tables, applist_ids, depot_ids)),
            None => rest,
        }
    }
}

/// Every readable list file holds an app id on which the status rule is
/// defined.
pub open spec fn statuses_defined(fs: Seq<ListedModel>, tables: TablesModel) -> bool {
    forall|i: int| 0 <= i < fs.len() && (#[trigger] fs[i]).content is Some ==>
        status_defined(trimmed(fs[i].content->0), tables.family_ids, tables.relationships)
}

pub fn file_stem(f: &str) -> (r: String)
    ensures
        r@ == file_stem_of(f@),
{
    match crate::profiles::last_position(f, '.') {
        Some(p) => if p > 0 {
            proof { crate::profiles::lemma_last_index_of_bounds(f@, '.'); }
            let cs = crate::text::chars_of(f);
            let st = crate::profiles::slice_chars(&cs, 0, p);
            crate::text::string_of(&st)
        } else {
            f.to_string()
        },
        None => f.to_string(),
    }
}

pub fn slot_key_of(f: &str) -> (r: u64)
    ensures
        r == slot_key(f@),
{
    let st = file_stem(f);
    match parse_u64_text(&st) {
        Some(n) => if n <= 0xffff_ffffu64 { n } else { 9999 },
        None => 9999,
    }
}

pub fn depot_id_from(f: &str) -> (r: Option<String>)
    ensures
        opt_text(r) == depot_id_of(f@),
{
    let st = file_stem(f);
    let cs = crate::text::chars_of(&st);
    let mut i: usize = 0;
    while i < cs.len() && cs[i] != '_'
        invariant
            i <= cs.len(),
            cs@ == st@,
            first_index_of(cs@.take(i as int), '_') is None,
        decreases cs.len() - i,
    {
        assert(cs@.take(i as int + 1).drop_last() =~= cs@.take(i as int));
        i = i + 1;
    }
    proof { lemma_first_index_of_prefix(cs@, i as int); }
    if i == cs.len() {
        assert(cs@.take(i as int) =~= cs@);
        return None;
    }
    let d = crate::profiles::slice_chars(&cs, 0, i);
    assert(d@ =~= cs@.take(i as int));
    Some(crate::text::string_of(&d))
}

proof fn lemma_first_index_of_prefix(s: Seq<char>, i: int)
    requires
        0 <= i <= s.len(),
        first_index_of(s.take(i), '_') is None,
        i < s.len() ==> s[i] == '_',
    ensures
        i < s.len() ==> first_index_of(s, '_') == Some(i),
        i == s.len() ==> first_index_of(s, '_') is None,
    decreases s.len() - i,
{
    if i == s.len() {
        assert(s.take(i) =~= s);
    } else {
        let t = s.take(i + 1);
        assert(t.drop_last() =~= s.take(i));
        lemma_first_index_of_extend(s, i + 1);
    }
}

proof fn lemma_first_index_of_extend(s: Seq<char>, j: int)
    requires
        0 < j <= s.len(),
        first_index_of(s.take(j), '_') is Some,
    ensures
        first_index_of(s, '_') == first_index_of(s.take(j), '_'),
    decreases s.len() - j,
{
    if j == s.len() {
        assert(s.take(j) =~= s);
    } else {
        assert(s.take(j + 1).drop_last() =~= s.take(j));
        lemma_first_index_of_extend(s, j + 1);
    }
}

impl AppListManager {
    pub fn new(gl_path: &str, steam_path: &str) -> (r: AppListManager)
        ensures
            r.gl_path@ == seq![gl_path@],
            r.steam_path@ == seq![steam_path@],
    {
        AppListManager { gl_path: PathText::new(gl_path), steam_path: PathText::new(steam_path) }
    }

    pub fn set_paths(&mut self, gl_path: &str, steam_path: &str)
        ensures
            final(self).gl_path@ == seq![gl_path@],
            final(self).steam_path@ == seq![steam_path@],
    {
        self.gl_path = PathText::new(gl_path);
        self.steam_path = PathText::new(steam_path);
    }

    /// The folder of slot files.
    pub fn app_list_dir(&self) -> (r: PathText)
        ensures
            r@ == self.gl_path@.push("AppList"@),
    {
        self.gl_path.join("AppList")
    }

    /// The slot file that holds the `i`-th app id: `AppList/{i}.txt`.
    pub fn slot_path(&self, i: usize) -> (r: PathText)
        ensures
            r@ == self.gl_path@.push("AppList"@).push(decimal(i as nat) + ".txt"@),
    {
        let name = concat(&decimal_string(i as u64), ".txt");
        self.gl_path.join("AppList").join_string(name)
    }

    /// The folder of depot manifests.
    pub fn depot_cache_dir(&self) -> (r: PathText)
        ensures
            r@ == self.steam_path@.push("depotcache"@),
    {
        self.steam_path.join("depotcache")
    }

    /// Where the child-to-parent table is kept: next to the program first, then
    /// in the GreenLuma folder.
    pub fn relationships_paths(&self) -> (r: (PathText, PathText))
        ensures
            r.0@ == seq!["."@, "relationships.json"@],
            r.1@ == self.gl_path@.push("relationships.json"@),
    {
        (PathText::new(".").join("relationships.json"), self.gl_path.join("relationships.json"))
    }

    /// The relationship table: the one next to the program when it exists,
    /// reads and is a JSON object of strings, else the one in the GreenLuma
    /// folder on the same terms, else an empty table. `local` and `in_gl` are
    /// the texts of the two files when they exist and read. The flag says the
    /// table came from next to the program while the GreenLuma folder has
    /// none, so the file is to be copied there.
    pub fn load_relationships(&self, local: Option<&str>, in_gl: Option<&str>, gl_exists: bool) -> (r: (Vec<(String, String)>, bool))
        ensures
            holds_map(pairs_view(r.0@), chosen_table(opt_str(local), opt_str(in_gl))),
            r.1 == (!gl_exists && local_table(opt_str(local)) is Some),
    {
        match load_from(local) {
            Some(t) => (t, !gl_exists),
            None => match load_from(in_gl) {
                Some(t) => (t, false),
                None => {
                    let e: Vec<(String, String)> = Vec::new();
                    assert(pairs_view(e@) =~= Seq::<(Seq<char>, Seq<char>)>::empty());
                    (e, false)
                },
            },
        }
    }

    /// The app-type table, chosen between the same two files in the same way.
    pub fn load_types(&self, local: Option<&str>, in_gl: Option<&str>) -> (r: Vec<(String, String)>)
        ensures
            holds_map(pairs_view(r@), chosen_table(opt_str(local), opt_str(in_gl))),
    {
        match load_from(local) {
            Some(t) => t,
            None => match load_from(in_gl) {
                Some(t) => t,
                None => {
                    let e: Vec<(String, String)> = Vec::new();
                    assert(pairs_view(e@) =~= Seq::<(Seq<char>, Seq<char>)>::empty());
                    e
                },
            },
        }
    }

    /// Where the app-type table is kept, in the same two places.
    pub fn types_paths(&self) -> (r: (PathText, PathText))
        ensures
            r.0@ == seq!["."@, "types.json"@],
            r.1@ == self.gl_path@.push("types.json"@),
    {
        (PathText::new(".").join("types.json"), self.gl_path.join("types.json"))
    }

    /// The library view of the list: nothing when the list folder is missing;
    /// otherwise one entry per readable slot file, in slot-number order (files
    /// whose stem is no number come last, in listing order). `files` is the
    /// listing of `AppList/*.txt`, `depot_files` that of `depotcache/*.manifest`.
    pub fn refresh_active_games_list(
        &self,
        list_present: bool,
        files: &Vec<ListedFile>,
        depot_files: &Vec<String>,
        tables: &ViewTables,
    ) -> (r: Vec<GameProfile>)
        requires
            statuses_defined(listed_view(files@), tables@),
        ensures
            !list_present ==> r@.len() == 0,
            list_present ==> profiles_view(r@) == view_entries(
                stable_order(files.len() as nat, slot_keys(listed_view(files@))),
                listed_view(files@),
                tables@,
                listed_ids(listed_view(files@)),
                depot_ids_of(strings_view(depot_files@)),
            ),
    {
        let mut out: Vec<GameProfile> = Vec::new();
        if !list_present {
            return out;
        }
        let ghost fs = listed_view(files@);
        // The app ids on the list.
        let mut applist_ids: Vec<String> = Vec::new();
        let mut i: usize = 0;
        while i < files.len()
            invariant
                i <= files.len(),
                fs == listed_view(files@),
                strings_view(applist_ids@) == listed_ids(fs.take(i as int)),
            decreases files.len() - i,
        {
            proof { assert(fs.take(i as int + 1).drop_last() =~= fs.take(i as int)); }
            match &files[i].content {
                Some(c) => {
                    let t = trim_text(c);
                    proof { crate::text::lemma_strings_view_push(applist_ids@, t); }
                    applist_ids.push(t);
                },
                None => {},
            }
            i = i + 1;
        }
        assert(fs.take(files.len() as int) =~= fs);
        // The depots with a manifest.
        let ghost ds = strings_view(depot_files@);
        let mut depot_ids: Vec<String> = Vec::new();
        let mut j: usize = 0;
        while j < depot_files.len()
            invariant
                j <= depot_files.len(),
                ds == strings_view(depot_files@),
                strings_view(depot_ids@) == depot_ids_of(ds.take(j as int)),
            decreases depot_files.len() - j,
        {
            proof {
                assert(ds.take(j as int + 1).drop_last() =~= ds.take(j as int));
                assert(ds[j as int] == depot_files@[j as int]@);
            }
            match depot_id_from(&depot_files[j]) {
                Some(d) => {
                    proof { crate::text::lemma_strings_view_push(depot_ids@, d); }
                    depot_ids.push(d);
                },
                None => {},
            }
            j = j + 1;
        }
        assert(ds.take(depot_files.len() as int) =~= ds);
        // Slot order.
        let mut keys: Vec<u64> = Vec::new();
        let mut k: usize = 0;
        while k < files.len()
            invariant
                k <= files.len(),
                fs == listed_view(files@),
                keys@ == slot_keys(fs).take(k as int),
            decreases files.len() - k,
        {
            keys.push(slot_key_of(&files[k].file_name));
            assert(slot_keys(fs).take(k as int + 1) =~= slot_keys(fs).take(k as int).push(slot_keys(fs)[k as int]));
            k = k + 1;
        }
        assert(keys@ =~= slot_keys(fs));
        let order = stable_order_by_key(&keys);
        proof { crate::order::law_stable_order(files.len() as nat, keys@); }
        let mut m: usize = 0;
        while m < order.len()
            invariant
                m <= order.len(),
                order.len() == files.len(),
                forall|q: int| 0 <= q < order.len() ==> #[trigger] order@[q] < files.len(),
                fs == listed_view(files@),
                statuses_defined(fs, tables@),
                profiles_view(out@) == view_entries(order@.take(m as int), fs, tables@,
                    strings_view(applist_ids@), strings_view(depot_ids@)),
            decreases order.len() - m,
        {
            let idx = order[m];
            proof {
                assert(order@.take(m as int + 1).drop_last() =~= order@.take(m as int));
                assert(fs[idx as int] == files@[idx as int]@);
            }
            match &files[idx].content {
                Some(c) => {
                    let app_id = trim_text(c);
                    proof { assert(fs[idx as int].content is Some); }
                    let p = classify_entry(&app_id, &files[idx].file_name, files[idx].installed, tables,
                        &applist_ids, &depot_ids);
                    proof { assert(profiles_view(out@.push(p)) =~= profiles_view(out@).push(p@)); }
                    out.push(p);
                },
                None => {},
            }
            m = m + 1;
        }
        assert(order@.take(order.len() as int) =~= order@);
        out
    }
}


pub open spec fn opts_view(c: Seq<Option<String>>) -> Seq<Option<Seq<char>>> {
    c.map_values(|o: Option<String>| opt_text(o))
}

/// The app ids the readable slot files hold, in listing order, leaving out
/// the one being removed.
pub open spec fn kept_ids(contents: Seq<Option<Seq<char>>>, target: Option<Seq<char>>) -> Seq<Seq<char>>
    decreases contents.len(),
{
    if contents.len() == 0 {
        Seq::empty()
    } else {
        let rest = kept_ids(contents.drop_last(), target);
        match contents.last() {
            Some(c) => if target == Some(trimmed(c)) { rest } else { rest.push(trimmed(c)) },
            None => rest,
        }
    }
}

/// The ids in order, each kept at its first occurrence only.
pub open spec fn distinct_first(s: Seq<Seq<char>>) -> Seq<Seq<char>>
    decreases s.len(),
{
    if s.len() == 0 {
        Seq::empty()
    } else {
        let d = distinct_first(s.drop_last());
        if d.contains(s.last()) { d } else { d.push(s.last()) }
    }
}

/// The ids in order, each run of equal neighbours cut to one.
pub open spec fn dedup_adjacent(s: Seq<Seq<char>>) -> Seq<Seq<char>>
    decreases s.len(),
{
    if s.len() <= 1 {
        s
    } else {
        let d = dedup_adjacent(s.drop_last());
        if s.last() == s[s.len() - 2] { d } else { d.push(s.last()) }
    }
}

/// The numeric sort key of an app id: its value, the largest key when it is
/// no number.
pub open spec fn id_key(id: Seq<char>) -> u64 {
    match parse_u64(id) {
        Some(n) => n,
        None => u64::MAX,
    }
}

pub open spec fn id_keys(ids: Seq<Seq<char>>) -> Seq<u64> {
    ids.map_values(|i: Seq<char>| id_key(i))
}

/// The ids at the given positions.
pub open spec fn arrange(order: Seq<usize>, ids: Seq<Seq<char>>) -> Seq<Seq<char>> {
    order.map_values(|k: usize| ids[k as int])
}

/// The ids sorted by number, non-numbers last, ties in their order.
pub open spec fn numeric_order(ids: Seq<Seq<char>>) -> Seq<Seq<char>> {
    arrange(stable_order(ids.len(), id_keys(ids)), ids)
}

/// Byte-wise lexicographic order, the order of `str`.
pub open spec fn bytes_lt(a: Seq<u8>, b: Seq<u8>) -> bool
    decreases a.len(),
{
    if b.len() == 0 {
        false
    } else if a.len() == 0 {
        true
    } else if a[0] != b[0] {
        a[0] < b[0]
    } else {
        bytes_lt(a.drop_first(), b.drop_first())
    }
}

/// The name-order key of an app id: its cached name lower-cased (a missing
/// name sorting as `zzz_unknown`), then its length in bytes, then the id.
pub open spec fn name_key(id: Seq<char>, cache: Seq<(Seq<char>, Seq<char>)>) -> (Seq<u8>, nat, Seq<u8>) {
    let name = match lookup_pair(cache, id) {
        Some(n) => n,
        None => "zzz_unknown"@,
    };
    (vstd::utf8::encode_utf8(lower_text(name)), vstd::utf8::encode_utf8(id).len(), vstd::utf8::encode_utf8(id))
}

pub open spec fn key_lt(x: (Seq<u8>, nat, Seq<u8>), y: (Seq<u8>, nat, Seq<u8>)) -> bool {
    bytes_lt(x.0, y.0) || (x.0 == y.0 && (x.1 < y.1 || (x.1 == y.1 && bytes_lt(x.2, y.2))))
}

/// How many of the first `n` keys sort strictly before `x`.
pub open spec fn count_below(ks: Seq<(Seq<u8>, nat, Seq<u8>)>, x: (Seq<u8>, nat, Seq<u8>), n: int) -> nat
    decreases n,
{
    if n <= 0 {
        0
    } else {
        count_below(ks, x, n - 1) + if key_lt(ks[n - 1], x) { 1nat } else { 0nat }
    }
}

pub open spec fn name_keys(ids: Seq<Seq<char>>, cache: Seq<(Seq<char>, Seq<char>)>) -> Seq<(Seq<u8>, nat, Seq<u8>)> {
    ids.map_values(|i: Seq<char>| name_key(i, cache))
}

/// Each key's rank: how many keys sort strictly before it.
pub open spec fn ranks(ks: Seq<(Seq<u8>, nat, Seq<u8>)>) -> Seq<u64> {
    Seq::new(ks.len(), |i: int| count_below(ks, ks[i], ks.len() as int) as u64)
}

/// The ids sorted by name, then id length, then id.
pub open spec fn name_order(ids: Seq<Seq<char>>, cache: Seq<(Seq<char>, Seq<char>)>) -> Seq<Seq<char>> {
    arrange(stable_order(ids.len(), ranks(name_keys(ids, cache))), ids)
}

/// What a reorder writes back: the kept ids sorted (by name when names are
/// given, by number otherwise), then with neighbouring repeats cut.
pub open spec fn reordered(
    contents: Seq<Option<Seq<char>>>,
    target: Option<Seq<char>>,
    cache: Option<Seq<(Seq<char>, Seq<char>)>>,
) -> Seq<Seq<char>> {
    let ids = kept_ids(contents, target);
    dedup_adjacent(match cache {
        Some(c) => name_order(ids, c),
        None => numeric_order(ids),
    })
}

pub fn bytes_less(a: &[u8], b: &[u8]) -> (r: bool)
    ensures
        r == bytes_lt(a@, b@),
{
    let mut i: usize = 0;
    assert(a@.skip(0) =~= a@ && b@.skip(0) =~= b@);
    while i < a.len() && i < b.len() && a[i] == b[i]
        invariant
            i <= a.len(),
            i <= b.len(),
            bytes_lt(a@, b@) == bytes_lt(a@.skip(i as int), b@.skip(i as int)),
        decreases a.len() - i,
    {
        proof {
            assert(a@.skip(i as int).drop_first() =~= a@.skip(i as int + 1));
            assert(b@.skip(i as int).drop_first() =~= b@.skip(i as int + 1));
        }
        i = i + 1;
    }
    if i == b.len() {
        false
    } else if i == a.len() {
        true
    } else {
        a[i] < b[i]
    }
}

/// The trimmed readable ids, leaving out `target`.
pub fn kept_list_ids(contents: &Vec<Option<String>>, target: Option<&str>) -> (r: Vec<String>)
    ensures
        strings_view(r@) == kept_ids(opts_view(contents@), match target {
            Some(t) => Some(t@),
            None => None,
        }),
{
    let ghost cs = opts_view(contents@);
    let ghost tg = match target {
        Some(t) => Some(t@),
        None => None,
    };
    let mut r: Vec<String> = Vec::new();
    let mut i: usize = 0;
    while i < contents.len()
        invariant
            i <= contents.len(),
            cs == opts_view(contents@),
            tg == match target {
                Some(t) => Some(t@),
                None => None::<Seq<char>>,
            },
            strings_view(r@) == kept_ids(cs.take(i as int), tg),
        decreases contents.len() - i,
    {
        proof {
            assert(cs.take(i as int + 1).drop_last() =~= cs.take(i as int));
            assert(cs[i as int] == opt_text(contents@[i as int]));
        }
        match &contents[i] {
            Some(c) => {
                let t = trim_text(c);
                let skip = match target {
                    Some(tt) => text_eq(&t, tt),
                    None => false,
                };
                if !skip {
                    proof { crate::text::lemma_strings_view_push(r@, t); }
                    r.push(t);
                }
            },
            None => {},
        }
        i = i + 1;
    }
    assert(cs.take(contents.len() as int) =~= cs);
    r
}

/// The ids, each at its first occurrence only.
pub fn distinct_ids(ids: &Vec<String>) -> (r: Vec<String>)
    ensures
        strings_view(r@) == distinct_first(strings_view(ids@)),
{
    let ghost s = strings_view(ids@);
    let mut r: Vec<String> = Vec::new();
    let mut i: usize = 0;
    while i < ids.len()
        invariant
            i <= ids.len(),
            s == strings_view(ids@),
            strings_view(r@) == distinct_first(s.take(i as int)),
        decreases ids.len() - i,
    {
        proof {
            assert(s.take(i as int + 1).drop_last() =~= s.take(i as int));
            assert(s[i as int] == ids@[i as int]@);
        }
        if !holds_text(&r, &ids[i]) {
            let t = ids[i].clone();
            proof { crate::text::lemma_strings_view_push(r@, t); }
            r.push(t);
        }
        i = i + 1;
    }
    assert(s.take(ids.len() as int) =~= s);
    r
}

/// The ids with each run of equal neighbours cut to one.
pub fn dedup_ids(ids: &Vec<String>) -> (r: Vec<String>)
    ensures
        strings_view(r@) == dedup_adjacent(strings_view(ids@)),
{
    let ghost s = strings_view(ids@);
    let mut r: Vec<String> = Vec::new();
    let mut i: usize = 0;
    while i < ids.len()
        invariant
            i <= ids.len(),
            s == strings_view(ids@),
            strings_view(r@) == dedup_adjacent(s.take(i as int)),
        decreases ids.len() - i,
    {
        proof {
            assert(s.take(i as int + 1).drop_last() =~= s.take(i as int));
            assert(s[i as int] == ids@[i as int]@);
        }
        let repeat = i > 0 && text_eq(&ids[i], &ids[i - 1]);
        proof {
            if i > 0 {
                assert(s[i as int - 1] == ids@[i as int - 1]@);
                assert(s.take(i as int + 1)[i as int - 1] == s[i as int - 1]);
            } else {
                assert(s.take(1) =~= seq![s[0]]);
                assert(s.take(0) =~= Seq::<Seq<char>>::empty());
            }
        }
        if !repeat {
            let t = ids[i].clone();
            proof { crate::text::lemma_strings_view_push(r@, t); }
            r.push(t);
        }
        i = i + 1;
    }
    assert(s.take(ids.len() as int) =~= s);
    r
}

/// The ids at the positions of `order`.
pub fn arrange_ids(order: &Vec<usize>, ids: &Vec<String>) -> (r: Vec<String>)
    requires
        forall|k: int| 0 <= k < order.len() ==> #[trigger] order@[k] < ids.len(),
    ensures
        strings_view(r@) == arrange(order@, strings_view(ids@)),
{
    let mut r: Vec<String> = Vec::new();
    let mut i: usize = 0;
    while i < order.len()
        invariant
            i <= order.len(),
            forall|k: int| 0 <= k < order.len() ==> #[trigger] order@[k] < ids.len(),
            strings_view(r@) == arrange(order@.take(i as int), strings_view(ids@)),
        decreases order.len() - i,
    {
        let t = ids[order[i]].clone();
        proof {
            crate::text::lemma_strings_view_push(r@, t);
            assert(arrange(order@.take(i as int + 1), strings_view(ids@)) =~=
                arrange(order@.take(i as int), strings_view(ids@)).push(t@));
        }
        r.push(t);
        i = i + 1;
    }
    assert(order@.take(order.len() as int) =~= order@);
    r
}

/// The ids sorted by number, non-numbers last, ties in their order.
pub fn sort_numeric(ids: &Vec<String>) -> (r: Vec<String>)
    ensures
        strings_view(r@) == numeric_order(strings_view(ids@)),
{
    let mut keys: Vec<u64> = Vec::new();
    let mut i: usize = 0;
    while i < ids.len()
        invariant
            i <= ids.len(),
            keys@ == id_keys(strings_view(ids@)).take(i as int),
        decreases ids.len() - i,
    {
        let k = match parse_u64_text(&ids[i]) {
            Some(n) => n,
            None => u64::MAX,
        };
        keys.push(k);
        assert(id_keys(strings_view(ids@)).take(i as int + 1) =~= keys@);
        i = i + 1;
    }
    assert(keys@ =~= id_keys(strings_view(ids@)));
    let order = stable_order_by_key(&keys);
    proof { crate::order::law_stable_order(ids.len() as nat, keys@); }
    arrange_ids(&order, ids)
}

/// The ids sorted by cached name (lower-cased), then id length, then id.
pub fn sort_by_name(ids: &Vec<String>, cache: &Vec<(String, String)>) -> (r: Vec<String>)
    requires
        ids.len() <= u64::MAX,
    ensures
        strings_view(r@) == name_order(strings_view(ids@), pairs_view(cache@)),
{
    let ghost sv = strings_view(ids@);
    let ghost ks = name_keys(sv, pairs_view(cache@));
    let mut lowered: Vec<String> = Vec::new();
    let mut i: usize = 0;
    while i < ids.len()
        invariant
            i <= ids.len(),
            sv == strings_view(ids@),
            ks == name_keys(sv, pairs_view(cache@)),
            lowered.len() == i,
            forall|k: int| 0 <= k < i ==> vstd::utf8::encode_utf8(#[trigger] lowered@[k]@) == ks[k].0,
        decreases ids.len() - i,
    {
        let name = match find_value(cache, &ids[i]) {
            Some(n) => n,
            None => "zzz_unknown".to_string(),
        };
        let low = to_lowercase_text(&name);
        assert(sv[i as int] == ids@[i as int]@);
        lowered.push(low);
        i = i + 1;
    }
    let mut ranks_v: Vec<u64> = Vec::new();
    let mut a: usize = 0;
    while a < ids.len()
        invariant
            a <= ids.len(),
            ids.len() <= u64::MAX,
            sv == strings_view(ids@),
            ks == name_keys(sv, pairs_view(cache@)),
            lowered.len() == ids.len(),
            forall|k: int| 0 <= k < ids.len() ==> vstd::utf8::encode_utf8(#[trigger] lowered@[k]@) == ks[k].0,
            ranks_v@ == ranks(ks).take(a as int),
        decreases ids.len() - a,
    {
        let mut c: u64 = 0;
        let mut b: usize = 0;
        while b < ids.len()
            invariant
                a < ids.len(),
                b <= ids.len(),
                ids.len() <= u64::MAX,
                sv == strings_view(ids@),
                ks == name_keys(sv, pairs_view(cache@)),
                lowered.len() == ids.len(),
                forall|k: int| 0 <= k < ids.len() ==> vstd::utf8::encode_utf8(#[trigger] lowered@[k]@) == ks[k].0,
                c == count_below(ks, ks[a as int], b as int),
                c <= b,
            decreases ids.len() - b,
        {
            if key_less(&lowered[b], &ids[b], &lowered[a], &ids[a]) {
                c = c + 1;
            }
            proof {
                assert(ks[b as int] == name_key(sv[b as int], pairs_view(cache@)));
                assert(ks[a as int] == name_key(sv[a as int], pairs_view(cache@)));
                assert(sv[b as int] == ids@[b as int]@ && sv[a as int] == ids@[a as int]@);
                assert(vstd::utf8::encode_utf8(lowered@[b as int]@) == ks[b as int].0);
                assert(vstd::utf8::encode_utf8(lowered@[a as int]@) == ks[a as int].0);
            }
            b = b + 1;
        }
        ranks_v.push(c);
        assert(ranks(ks).take(a as int + 1) =~= ranks_v@);
        a = a + 1;
    }
    assert(ranks_v@ =~= ranks(ks));
    let order = stable_order_by_key(&ranks_v);
    proof { crate::order::law_stable_order(ids.len() as nat, ranks_v@); }
    arrange_ids(&order, ids)
}

/// Whether the key of one id (lowered name `la`) sorts strictly before the key
/// of another.
fn key_less(la: &String, a: &String, lb: &String, b: &String) -> (r: bool)
    ensures
        r == key_lt(
            (vstd::utf8::encode_utf8(la@), vstd::utf8::encode_utf8(a@).len(), vstd::utf8::encode_utf8(a@)),
            (vstd::utf8::encode_utf8(lb@), vstd::utf8::encode_utf8(b@).len(), vstd::utf8::encode_utf8(b@)),
        ),
{
    let x = la.as_str().as_bytes();
    let y = lb.as_str().as_bytes();
    if bytes_less(x, y) {
        return true;
    }
    if !bytes_equal(x, y) {
        return false;
    }
    let ab = a.as_str().as_bytes();
    let bb = b.as_str().as_bytes();
    if ab.len() < bb.len() {
        return true;
    }
    if ab.len() > bb.len() {
        return false;
    }
    bytes_less(ab, bb)
}

pub fn bytes_equal(a: &[u8], b: &[u8]) -> (r: bool)
    ensures
        r == (a@ == b@),
{
    if a.len() != b.len() {
        return false;
    }
    let mut i: usize = 0;
    while i < a.len()
        invariant
            i <= a.len(),
            a.len() == b.len(),
            forall|k: int| 0 <= k < i ==> a@[k] == b@[k],
        decreases a.len() - i,
    {
        if a[i] != b[i] {
            return false;
        }
        i = i + 1;
    }
    assert(a@ =~= b@);
    true
}

impl AppListManager {
    /// What a full reorder writes back to slots `0..`: the readable ids minus
    /// `target_id_to_remove`, sorted by name when names are given and by
    /// number otherwise, neighbouring repeats cut. `None` when the list folder
    /// is missing and nothing is done. `contents` holds the text of each slot
    /// file, `None` for one that could not be read.
    pub fn nuke_reorder(
        &self,
        list_present: bool,
        contents: &Vec<Option<String>>,
        target_id_to_remove: Option<&str>,
        cache: Option<&Vec<(String, String)>>,
    ) -> (r: Option<Vec<String>>)
        requires
            contents.len() <= u64::MAX,
        ensures
            !list_present ==> r is None,
            list_present ==> r is Some && strings_view(r->0@) == reordered(
                opts_view(contents@),
                match target_id_to_remove {
                    Some(t) => Some(t@),
                    None => None,
                },
                match cache {
                    Some(c) => Some(pairs_view(c@)),
                    None => None,
                },
            ),
    {
        if !list_present {
            return None;
        }
        let ids = kept_list_ids(contents, target_id_to_remove);
        proof { lemma_kept_ids_len(opts_view(contents@), match target_id_to_remove {
            Some(t) => Some(t@),
            None => None,
        }); }
        let sorted = match cache {
            Some(c) => sort_by_name(&ids, c),
            None => sort_numeric(&ids),
        };
        Some(dedup_ids(&sorted))
    }

    /// The list after adding ids: the readable ids and the new ones, each once,
    /// sorted by number.
    pub fn add_games_to_list(&self, contents: &Vec<Option<String>>, new_ids: &Vec<String>) -> (r: Vec<String>)
        ensures
            strings_view(r@) == numeric_order(distinct_first(
                kept_ids(opts_view(contents@), None) + strings_view(new_ids@),
            )),
    {
        let mut all = kept_list_ids(contents, None);
        let ghost first = all@;
        let mut i: usize = 0;
        while i < new_ids.len()
            invariant
                i <= new_ids.len(),
                strings_view(all@) == strings_view(first) + strings_view(new_ids@).take(i as int),
            decreases new_ids.len() - i,
        {
            let t = new_ids[i].clone();
            proof {
                crate::text::lemma_strings_view_push(all@, t);
                assert(strings_view(new_ids@).take(i as int + 1) =~= strings_view(new_ids@).take(i as int).push(t@));
                assert(strings_view(first) + strings_view(new_ids@).take(i as int + 1) =~=
                    (strings_view(first) + strings_view(new_ids@).take(i as int)).push(t@));
            }
            all.push(t);
            i = i + 1;
        }
        assert(strings_view(new_ids@).take(new_ids.len() as int) =~= strings_view(new_ids@));
        let d = distinct_ids(&all);
        sort_numeric(&d)
    }

    /// The list after removing ids: the readable ids not among them, each once,
    /// sorted by number; `None` when the list folder is missing.
    pub fn remove_games_from_list(
        &self,
        list_present: bool,
        contents: &Vec<Option<String>>,
        ids_to_remove: &Vec<String>,
    ) -> (r: Option<Vec<String>>)
        ensures
            !list_present ==> r is None,
            list_present ==> r is Some && strings_view(r->0@) == numeric_order(distinct_first(
                kept_ids(opts_view(contents@), None).filter(|id: Seq<char>| !strings_view(ids_to_remove@).contains(id)),
            )),
    {
        if !list_present {
            return None;
        }
        let ids = kept_list_ids(contents, None);
        let ghost sv = strings_view(ids@);
        let mut keep: Vec<String> = Vec::new();
        let mut i: usize = 0;
        while i < ids.len()
            invariant
                i <= ids.len(),
                sv == strings_view(ids@),
                strings_view(keep@) == sv.take(i as int).filter(|id: Seq<char>| !strings_view(ids_to_remove@).contains(id)),
            decreases ids.len() - i,
        {
            proof {
                reveal_with_fuel(Seq::<Seq<char>>::filter, 1);
                assert(sv.take(i as int + 1).drop_last() =~= sv.take(i as int));
                assert(sv[i as int] == ids@[i as int]@);
            }
            if !holds_text(ids_to_remove, &ids[i]) {
                let t = ids[i].clone();
                proof { crate::text::lemma_strings_view_push(keep@, t); }
                keep.push(t);
            }
            i = i + 1;
        }
        assert(sv.take(ids.len() as int) =~= sv);
        let d = distinct_ids(&keep);
        Some(sort_numeric(&d))
    }
}

proof fn lemma_kept_ids_len(contents: Seq<Option<Seq<char>>>, target: Option<Seq<char>>)
    ensures
        kept_ids(contents, target).len() <= contents.len(),
    decreases contents.len(),
{
    if contents.len() > 0 {
        lemma_kept_ids_len(contents.drop_last(), target);
    }
}


/// No id occurs twice.
pub open spec fn no_repeats(s: Seq<Seq<char>>) -> bool {
    forall|i: int, j: int| 0 <= i < j < s.len() ==> #[trigger] s[i] != #[trigger] s[j]
}

proof fn lemma_distinct_first(s: Seq<Seq<char>>)
    ensures
        no_repeats(distinct_first(s)),
        forall|x: Seq<char>| #[trigger] distinct_first(s).contains(x) <==> s.contains(x),
    decreases s.len(),
{
    if s.len() > 0 {
        let p = s.drop_last();
        lemma_distinct_first(p);
        let d = distinct_first(p);
        assert forall|x: Seq<char>| #[trigger] distinct_first(s).contains(x) <==> s.contains(x) by {
            if s.contains(x) {
                let k = choose|k: int| 0 <= k < s.len() && s[k] == x;
                if k < s.len() - 1 {
                    assert(p[k] == x);
                    assert(p.contains(x));
                }
            }
            if p.contains(x) {
                let k = choose|k: int| 0 <= k < p.len() && p[k] == x;
                assert(s[k] == x);
            }
            if !d.contains(s.last()) {
                if d.push(s.last()).contains(x) {
                    let k = choose|k: int| 0 <= k < d.len() + 1 && d.push(s.last())[k] == x;
                    if k < d.len() {
                        assert(d[k] == x);
                    }
                }
                if d.contains(x) {
                    let k = choose|k: int| 0 <= k < d.len() && d[k] == x;
                    assert(d.push(s.last())[k] == x);
                }
                assert(d.push(s.last())[d.len() as int] == s.last());
            }
        }
        if !d.contains(s.last()) {
            let e = d.push(s.last());
            assert forall|i: int, j: int| 0 <= i < j < e.len() implies #[trigger] e[i] != #[trigger] e[j] by {
                if j == d.len() {
                    assert(e[i] == d[i]);
                    if e[i] == e[j] {
                        assert(d.contains(s.last()));
                    }
                } else {
                    assert(e[i] == d[i] && e[j] == d[j]);
                }
            }
        }
    }
}

proof fn lemma_arrange(order: Seq<usize>, keys: Seq<u64>, ids: Seq<Seq<char>>)
    requires
        crate::order::is_arrangement(order, ids.len()),
        crate::order::key_sorted(order, keys),
        ids.len() <= usize::MAX,
    ensures
        forall|x: Seq<char>| #[trigger] arrange(order, ids).contains(x) <==> ids.contains(x),
        no_repeats(ids) ==> no_repeats(arrange(order, ids)),
{
    let r = arrange(order, ids);
    assert forall|x: Seq<char>| #[trigger] r.contains(x) <==> ids.contains(x) by {
        if r.contains(x) {
            let k = choose|k: int| 0 <= k < r.len() && r[k] == x;
            assert(ids[order[k] as int] == x);
        }
        if ids.contains(x) {
            let i = choose|i: int| 0 <= i < ids.len() && ids[i] == x;
            assert(order.contains(i as usize));
            let k = choose|k: int| 0 <= k < order.len() && order[k] == i as usize;
            assert(order[k] as int == i);
            assert(r[k] == ids[order[k] as int]);
        }
    }
    if no_repeats(ids) {
        assert forall|a: int, b: int| 0 <= a < b < r.len() implies #[trigger] r[a] != #[trigger] r[b] by {
            assert(crate::order::before(order[a], order[b], keys));
            assert(order[a] != order[b]);
            if order[a] < order[b] {
                assert(ids[order[a] as int] != ids[order[b] as int]);
            } else {
                assert(ids[order[b] as int] != ids[order[a] as int]);
            }
        }
    }
}

/// After adding, the list holds exactly the ids it held and the new ones, each
/// once, in numeric order.
pub proof fn law_add_games(contents: Seq<Option<Seq<char>>>, new_ids: Seq<Seq<char>>)
    requires
        kept_ids(contents, None).len() + new_ids.len() <= usize::MAX,
    ensures
        ({
            let r = numeric_order(distinct_first(kept_ids(contents, None) + new_ids));
            &&& no_repeats(r)
            &&& forall|x: Seq<char>| #[trigger] r.contains(x) <==> (kept_ids(contents, None).contains(x) || new_ids.contains(x))
            &&& forall|a: int, b: int| 0 <= a < b < r.len() ==> id_key(#[trigger] r[a]) <= id_key(#[trigger] r[b])
        }),
{
    let all = kept_ids(contents, None) + new_ids;
    let d = distinct_first(all);
    lemma_distinct_first(all);
    lemma_distinct_first_len(all);
    crate::order::law_stable_order(d.len(), id_keys(d));
    lemma_arrange(stable_order(d.len(), id_keys(d)), id_keys(d), d);
    let r = numeric_order(d);
    assert forall|x: Seq<char>| #[trigger] r.contains(x) <==> (kept_ids(contents, None).contains(x) || new_ids.contains(x)) by {
        if all.contains(x) {
            let k = choose|k: int| 0 <= k < all.len() && all[k] == x;
            if k < kept_ids(contents, None).len() {
                assert(kept_ids(contents, None)[k] == x);
            } else {
                assert(new_ids[k - kept_ids(contents, None).len()] == x);
            }
        }
        if kept_ids(contents, None).contains(x) {
            let k = choose|k: int| 0 <= k < kept_ids(contents, None).len() && kept_ids(contents, None)[k] == x;
            assert(all[k] == x);
        }
        if new_ids.contains(x) {
            let k = choose|k: int| 0 <= k < new_ids.len() && new_ids[k] == x;
            assert(all[k + kept_ids(contents, None).len()] == x);
        }
    }
    let order = stable_order(d.len(), id_keys(d));
    assert forall|a: int, b: int| 0 <= a < b < r.len() implies id_key(#[trigger] r[a]) <= id_key(#[trigger] r[b]) by {
        assert(crate::order::before(order[a], order[b], id_keys(d)));
    }
}

/// After removing, the list holds exactly the ids it held that were not to be
/// removed, each once, in numeric order.
pub proof fn law_remove_games(contents: Seq<Option<Seq<char>>>, ids_to_remove: Seq<Seq<char>>)
    requires
        kept_ids(contents, None).len() <= usize::MAX,
    ensures
        ({
            let kept = kept_ids(contents, None).filter(|id: Seq<char>| !ids_to_remove.contains(id));
            let r = numeric_order(distinct_first(kept));
            &&& no_repeats(r)
            &&& forall|x: Seq<char>| #[trigger] r.contains(x) <==> (kept_ids(contents, None).contains(x) && !ids_to_remove.contains(x))
            &&& forall|a: int, b: int| 0 <= a < b < r.len() ==> id_key(#[trigger] r[a]) <= id_key(#[trigger] r[b])
        }),
{
    let f = |id: Seq<char>| !ids_to_remove.contains(id);
    let kept = kept_ids(contents, None).filter(f);
    let d = distinct_first(kept);
    lemma_distinct_first(kept);
    kept_ids(contents, None).filter_lemma(f);
    lemma_distinct_first_len(kept);
    crate::order::law_stable_order(d.len(), id_keys(d));
    lemma_arrange(stable_order(d.len(), id_keys(d)), id_keys(d), d);
    let r = numeric_order(d);
    assert forall|x: Seq<char>| #[trigger] r.contains(x) <==> (kept_ids(contents, None).contains(x) && !ids_to_remove.contains(x)) by {
        if kept_ids(contents, None).contains(x) && !ids_to_remove.contains(x) {
            let k = choose|k: int| 0 <= k < kept_ids(contents, None).len() && kept_ids(contents, None)[k] == x;
            assert(f(kept_ids(contents, None)[k]));
        }
        if kept.contains(x) {
            let k = choose|k: int| 0 <= k < kept.len() && kept[k] == x;
            assert(f(kept[k]));
            kept_ids(contents, None).lemma_filter_contains_rev(f, x);
        }
    }
    let order = stable_order(d.len(), id_keys(d));
    assert forall|a: int, b: int| 0 <= a < b < r.len() implies id_key(#[trigger] r[a]) <= id_key(#[trigger] r[b]) by {
        assert(crate::order::before(order[a], order[b], id_keys(d)));
    }
}

proof fn lemma_distinct_first_len(s: Seq<Seq<char>>)
    ensures
        distinct_first(s).len() <= s.len(),
    decreases s.len(),
{
    if s.len() > 0 {
        lemma_distinct_first_len(s.drop_last());
    }
}


pub proof fn lemma_bytes_lt_irrefl(a: Seq<u8>)
    ensures
        !bytes_lt(a, a),
    decreases a.len(),
{
    if a.len() > 0 {
        lemma_bytes_lt_irrefl(a.drop_first());
    }
}

pub proof fn lemma_bytes_lt_trans(a: Seq<u8>, b: Seq<u8>, c: Seq<u8>)
    requires
        bytes_lt(a, b),
        bytes_lt(b, c),
    ensures
        bytes_lt(a, c),
    decreases a.len(),
{
    if a.len() > 0 && b.len() > 0 && c.len() > 0 && a[0] == b[0] && b[0] == c[0] {
        lemma_bytes_lt_trans(a.drop_first(), b.drop_first(), c.drop_first());
    }
}

proof fn lemma_key_lt_order(x: (Seq<u8>, nat, Seq<u8>), y: (Seq<u8>, nat, Seq<u8>), z: (Seq<u8>, nat, Seq<u8>))
    ensures
        !key_lt(x, x),
        key_lt(x, y) && key_lt(y, z) ==> key_lt(x, z),
{
    lemma_bytes_lt_irrefl(x.0);
    lemma_bytes_lt_irrefl(x.2);
    if key_lt(x, y) && key_lt(y, z) {
        if bytes_lt(x.0, y.0) && bytes_lt(y.0, z.0) {
            lemma_bytes_lt_trans(x.0, y.0, z.0);
        }
        if x.0 == y.0 && y.0 == z.0 && x.1 == y.1 && y.1 == z.1 && bytes_lt(x.2, y.2) && bytes_lt(y.2, z.2) {
            lemma_bytes_lt_trans(x.2, y.2, z.2);
        }
    }
}

pub(crate) proof fn lemma_count_below_strict(ks: Seq<(Seq<u8>, nat, Seq<u8>)>, i: int, j: int, n: int)
    requires
        0 <= i < ks.len(),
        0 <= j < ks.len(),
        0 <= n <= ks.len(),
        key_lt(ks[i], ks[j]),
    ensures
        count_below(ks, ks[i], n) + (if i < n { 1int } else { 0int }) <= count_below(ks, ks[j], n),
    decreases n,
{
    if n > 0 {
        lemma_count_below_strict(ks, i, j, n - 1);
        lemma_key_lt_order(ks[n - 1], ks[i], ks[j]);
        lemma_key_lt_order(ks[i], ks[i], ks[i]);
    }
}

pub(crate) proof fn lemma_count_below_bound(ks: Seq<(Seq<u8>, nat, Seq<u8>)>, x: (Seq<u8>, nat, Seq<u8>), n: int)
    requires
        0 <= n,
    ensures
        count_below(ks, x, n) <= n,
    decreases n,
{
    if n > 0 {
        lemma_count_below_bound(ks, x, n - 1);
    }
}

/// The name order lists the same ids, with names (lower-cased), then id
/// lengths, then ids never decreasing.
pub proof fn law_name_order(ids: Seq<Seq<char>>, cache: Seq<(Seq<char>, Seq<char>)>)
    requires
        ids.len() <= usize::MAX,
        ids.len() <= u64::MAX,
    ensures
        ({
            let r = name_order(ids, cache);
            &&& forall|x: Seq<char>| #[trigger] r.contains(x) <==> ids.contains(x)
            &&& forall|a: int, b: int| 0 <= a < b < r.len() ==>
                !key_lt(name_key(#[trigger] r[b], cache), name_key(#[trigger] r[a], cache))
        }),
{
    let n = ids.len();
    let ks = name_keys(ids, cache);
    let rk = ranks(ks);
    let order = stable_order(n, rk);
    crate::order::law_stable_order(n, rk);
    lemma_arrange(order, rk, ids);
    let r = name_order(ids, cache);
    assert forall|a: int, b: int| 0 <= a < b < r.len() implies
        !key_lt(name_key(#[trigger] r[b], cache), name_key(#[trigger] r[a], cache)) by {
        let oa = order[a] as int;
        let ob = order[b] as int;
        assert(crate::order::before(order[a], order[b], rk));
        assert(r[a] == ids[oa] && r[b] == ids[ob]);
        assert(ks[oa] == name_key(ids[oa], cache) && ks[ob] == name_key(ids[ob], cache));
        if key_lt(ks[ob], ks[oa]) {
            lemma_count_below_strict(ks, ob, oa, n as int);
            lemma_count_below_bound(ks, ks[oa], n as int);
            lemma_count_below_bound(ks, ks[ob], n as int);
            assert(rk[oa] == count_below(ks, ks[oa], n as int) as u64);
            assert(rk[ob] == count_below(ks, ks[ob], n as int) as u64);
        }
    }
}


/// What `serde_json::from_str` reads from a text as a map from strings to
/// strings: `None` when the text is no JSON object whose values are all
/// strings.
pub uninterp spec fn json_string_map(text: Seq<char>) -> Option<Map<Seq<char>, Seq<char>>>;

/// The pairs hold the map: each key once, and exactly the map's entries.
pub open spec fn holds_map(ps: Seq<(Seq<char>, Seq<char>)>, m: Map<Seq<char>, Seq<char>>) -> bool {
    &&& forall|a: int, b: int| 0 <= a < b < ps.len() ==> #[trigger] ps[a].0 != #[trigger] ps[b].0
    &&& forall|k: Seq<char>, v: Seq<char>| #[trigger] m.contains_pair(k, v) <==> ps.contains((k, v))
}

/// `serde_json::from_str` into a `HashMap<String, String>`, its entries
/// handed out in the map's own order (which the contract leaves open).
#[verifier::external_body]
fn parse_string_map(text: &str) -> (r: Option<Vec<(String, String)>>)
    ensures
        r is Some <==> json_string_map(text@) is Some,
        r is Some ==> holds_map(pairs_view(r->0@), json_string_map(text@)->0),
{
    serde_json::from_str::<std::collections::HashMap<String, String>>(text).ok().map(|m| m.into_iter().collect())
}

/// A JSON object of strings as a table; `None` when the text is not one.
pub fn string_map_from_json(text: &str) -> (r: Option<Vec<(String, String)>>)
    ensures
        r is Some <==> json_string_map(text@) is Some,
        r is Some ==> holds_map(pairs_view(r->0@), json_string_map(text@)->0),
{
    parse_string_map(text)
}

pub open spec fn opt_str(o: Option<&str>) -> Option<Seq<char>> {
    match o {
        Some(s) => Some(s@),
        None => None,
    }
}

/// The table a file's text gives, when there is a text and it parses.
pub open spec fn local_table(text: Option<Seq<char>>) -> Option<Map<Seq<char>, Seq<char>>> {
    match text {
        Some(t) => json_string_map(t),
        None => None,
    }
}

/// The table loaded from two candidate files: the first that parses, else
/// the empty table.
pub open spec fn chosen_table(first: Option<Seq<char>>, second: Option<Seq<char>>) -> Map<Seq<char>, Seq<char>> {
    match local_table(first) {
        Some(m) => m,
        None => match local_table(second) {
            Some(m) => m,
            None => Map::empty(),
        },
    }
}

fn load_from(text: Option<&str>) -> (r: Option<Vec<(String, String)>>)
    ensures
        r is Some <==> local_table(opt_str(text)) is Some,
        r is Some ==> holds_map(pairs_view(r->0@), local_table(opt_str(text))->0),
{
    match text {
        Some(t) => string_map_from_json(t),
        None => None,
    }
}


/// How many entries the AppList holds at most.
pub const APPLIST_LIMIT: usize = 130;

/// The AppList is full: it holds as many entries as it can.
pub fn limit_reached(used: usize) -> (r: bool)
    ensures
        r == (used >= APPLIST_LIMIT),
{
    used >= APPLIST_LIMIT
}

/// The free slots of the AppList, none once it is full.
pub fn slots_left(used: usize) -> (r: usize)
    ensures
        r == if used >= APPLIST_LIMIT { 0 } else { APPLIST_LIMIT - used },
{
    if used >= APPLIST_LIMIT { 0 } else { APPLIST_LIMIT - used }
}

} // verus!
