//! Records exchanged with the game-information services, and the choice of depots
//! by language.
use vstd::prelude::*;
use crate::text::{chars_of, parse_u64, parse_u64_text, split_char, split_chars, string_of, strings_view, text_eq,
    to_lowercase_text, trim_text, trimmed, lower_text};
use crate::json::{JsonValue, as_text, at, get_in, json_get, text_of};

verus! {

/// A game with its base depots and its DLCs.
#[derive(Debug, Clone)]
pub struct GameHierarchy {
    pub root_id: String,
    pub root_name: String,
    pub base_depots: Vec<DepotNode>,
    pub dlcs: Vec<DlcNode>,
}

/// A DLC with its depots and whether it starts out selected.
#[derive(Debug, Clone)]
pub struct DlcNode {
    pub app_id: String,
    pub name: String,
    pub depots: Vec<DepotNode>,
    pub selected: bool,
}

/// A depot: its id, manifest id, size in bytes, language, and whether it is
/// language-neutral or belongs to a DLC.
#[derive(Debug, Clone)]
pub struct DepotNode {
    pub depot_id: String,
    pub gid: Option<String>,
    pub size: Option<u64>,
    pub language: Option<String>,
    pub is_common: bool,
    pub is_dlc_depot: bool,
}

/// A game with the address of its cover picture.
pub struct CoveredGame {
    pub id: String,
    pub name: String,
    pub cover_url: String,
}

/// Store details of a game.
#[derive(Debug)]
pub struct GameDetails {
    pub app_id: String,
    pub name: String,
    pub short_description: String,
    pub developers: Vec<String>,
    pub publishers: Vec<String>,
    pub genres: Vec<String>,
    pub release_date: String,
    pub metacritic_score: Option<u32>,
    pub recommendations: Option<u64>,
    /// Windows, macOS, Linux.
    pub platforms: (bool, bool, bool),
    pub required_age: u8,
}

/// Whether a game's manifest data is current.
#[derive(Debug, Clone)]
pub struct GameStatus {
    pub app_id: String,
    pub status: String,
    pub needs_update: Option<bool>,
    pub file_modified: Option<String>,
    pub timestamp: Option<String>,
}

/// Usage counters of an API key.
#[derive(Debug, Clone)]
pub struct UserStats {
    pub api_key_usage_count: i32,
    pub daily_usage: i32,
    pub daily_limit: i32,
    pub can_make_requests: bool,
    pub role: Option<String>,
}

/// Public information about an app: name, build, depots (by id) and DLC ids.
#[derive(Debug, Clone)]
pub struct SteamCmdInfo {
    pub name: Option<String>,
    pub buildid: Option<u64>,
    pub depots: Vec<(String, DepotInfo)>,
    pub dlcs: Vec<String>,
}

/// A depot's manifest id and language (`None` for a depot common to all).
#[derive(Debug, Clone)]
pub struct DepotInfo {
    pub gid: Option<String>,
    pub language: Option<String>,
}

/// The texts of a depot's manifest id and language.
pub struct DepotInfoModel {
    pub gid: Option<Seq<char>>,
    pub language: Option<Seq<char>>,
}

pub open spec fn opt_text(o: Option<String>) -> Option<Seq<char>> {
    match o {
        Some(s) => Some(s@),
        None => None,
    }
}

impl View for DepotInfo {
    type V = DepotInfoModel;

    open spec fn view(&self) -> DepotInfoModel {
        DepotInfoModel { gid: opt_text(self.gid), language: opt_text(self.language) }
    }
}

/// A game's statistics schema.
#[derive(Debug, Clone)]
pub struct SchemaResponse {
    pub game: GameSchema,
}

#[derive(Debug, Clone)]
pub struct GameSchema {
    pub game_name: Option<String>,
    pub available_game_stats: Option<AvailableGameStats>,
}

#[derive(Debug, Clone)]
pub struct AvailableGameStats {
    pub achievements: Option<Vec<SchemaAchievement>>,
}

#[derive(Debug, Clone)]
pub struct SchemaAchievement {
    pub name: String,
    pub display_name: Option<String>,
    pub hidden: Option<i32>,
    pub description: Option<String>,
    pub icon: Option<String>,
    pub icon_gray: Option<String>,
}

pub open spec fn depot_entries_view(ds: Seq<(String, DepotInfo)>) -> Seq<(Seq<char>, DepotInfoModel)> {
    ds.map_values(|e: (String, DepotInfo)| (e.0@, e.1@))
}

/// Whether some depot carries exactly the language `lang`.
pub open spec fn has_language(ds: Seq<(Seq<char>, DepotInfoModel)>, lang: Seq<char>) -> bool {
    exists|i: int| 0 <= i < ds.len() && #[trigger] ds[i].1.language == Some(lang)
}

/// The language rule: common depots always; depots in the target language; English
/// depots only when no depot has the target language; no other language.
pub open spec fn keeps_depot(info: DepotInfoModel, target: Seq<char>, has_target: bool) -> bool {
    match info.language {
        None => true,
        Some(l) => l == target || (l == "english"@ && !has_target),
    }
}

/// The depots that the language rule keeps, in their order, for the lower-cased
/// target language.
pub open spec fn depots_for_language(ds: Seq<(Seq<char>, DepotInfoModel)>, target_language: Seq<char>) -> Seq<(Seq<char>, DepotInfoModel)> {
    let target = lower_text(target_language);
    let has_target = has_language(ds, target);
    ds.filter(|e: (Seq<char>, DepotInfoModel)| keeps_depot(e.1, target, has_target))
}

fn copy_opt(o: &Option<String>) -> (r: Option<String>)
    ensures
        opt_text(r) == opt_text(*o),
{
    match o {
        Some(s) => Some(s.clone()),
        None => None,
    }
}

proof fn lemma_filter_members<A>(s: Seq<A>, pred: spec_fn(A) -> bool)
    ensures
        forall|j: int| 0 <= j < s.filter(pred).len() ==> s.contains(#[trigger] s.filter(pred)[j]),
    decreases s.len(),
{
    reveal(Seq::filter);
    if s.len() > 0 {
        let p = s.drop_last();
        lemma_filter_members(p, pred);
        assert forall|j: int| 0 <= j < s.filter(pred).len() implies s.contains(#[trigger] s.filter(pred)[j]) by {
            if j < p.filter(pred).len() {
                assert(s.filter(pred)[j] == p.filter(pred)[j]);
                let k = choose|k: int| 0 <= k < p.len() && p[k] == p.filter(pred)[j];
                assert(s[k] == p[k]);
            } else {
                assert(s.filter(pred)[j] == s.last());
                assert(s[s.len() - 1] == s.last());
            }
        }
    }
}

proof fn lemma_filter_all<A>(s: Seq<A>, pred: spec_fn(A) -> bool)
    requires
        forall|i: int| 0 <= i < s.len() ==> pred(#[trigger] s[i]),
    ensures
        s.filter(pred) == s,
    decreases s.len(),
{
    reveal(Seq::filter);
    if s.len() > 0 {
        let p = s.drop_last();
        assert forall|i: int| 0 <= i < p.len() implies pred(#[trigger] p[i]) by {
            assert(p[i] == s[i]);
        }
        lemma_filter_all(p, pred);
        assert(pred(s[s.len() - 1]));
        assert(s =~= p.push(s.last()));
    } else {
        assert(s =~= Seq::<A>::empty());
    }
}

/// Choosing depots by language a second time changes nothing: the depots the
/// rule keeps are kept again.
pub proof fn law_language_filter_idempotent(ds: Seq<(Seq<char>, DepotInfoModel)>, target_language: Seq<char>)
    ensures
        depots_for_language(depots_for_language(ds, target_language), target_language) == depots_for_language(ds, target_language),
{
    let target = lower_text(target_language);
    let h = has_language(ds, target);
    let pred = |e: (Seq<char>, DepotInfoModel)| keeps_depot(e.1, target, h);
    let f = ds.filter(pred);
    assert(f == depots_for_language(ds, target_language));
    ds.filter_lemma(pred);
    lemma_filter_members(ds, pred);
    if h {
        let i = choose|i: int| 0 <= i < ds.len() && #[trigger] ds[i].1.language == Some(target);
        assert(pred(ds[i]));
        assert(f.contains(ds[i]));
        let j = choose|j: int| 0 <= j < f.len() && f[j] == ds[i];
        assert(f[j].1.language == Some(target));
        assert(has_language(f, target));
    } else {
        if has_language(f, target) {
            let j = choose|j: int| 0 <= j < f.len() && #[trigger] f[j].1.language == Some(target);
            assert(ds.contains(f[j]));
            let i = choose|i: int| 0 <= i < ds.len() && ds[i] == f[j];
            assert(ds[i].1.language == Some(target));
        }
    }
    assert(has_language(f, target) == h);
    let pred2 = |e: (Seq<char>, DepotInfoModel)| keeps_depot(e.1, target, has_language(f, target));
    assert(pred2 =~= pred);
    assert forall|i: int| 0 <= i < f.len() implies pred(#[trigger] f[i]) by {}
    lemma_filter_all(f, pred);
    assert(depots_for_language(f, target_language) == f.filter(pred2));
}

/// Keeps the depots that suit `target_language`: those without a language, those
/// in the target language (compared lower-cased), and English ones only when the
/// target language has none.
pub fn filter_depots_by_language(depots: &Vec<(String, DepotInfo)>, target_language: &str) -> (r: Vec<(String, DepotInfo)>)
    ensures
        depot_entries_view(r@) == depots_for_language(depot_entries_view(depots@), target_language@),
{
    let target = to_lowercase_text(target_language);
    let ghost ds = depot_entries_view(depots@);
    let ghost tv = lower_text(target_language@);
    let mut has_target = false;
    let mut i: usize = 0;
    while i < depots.len()
        invariant
            i <= depots.len(),
            ds == depot_entries_view(depots@),
            target@ == tv,
            has_target == exists|j: int| 0 <= j < i && #[trigger] ds[j].1.language == Some(tv),
        decreases depots.len() - i,
    {
        assert(ds[i as int] == (depots@[i as int].0@, depots@[i as int].1@));
        if let Some(l) = &depots[i].1.language {
            if text_eq(l.as_str(), target.as_str()) {
                assert(ds[i as int].1.language == Some(tv));
                has_target = true;
            }
        }
        i = i + 1;
    }
    assert(has_target == has_language(ds, tv));
    let mut out: Vec<(String, DepotInfo)> = Vec::new();
    let ghost keep = |e: (Seq<char>, DepotInfoModel)| keeps_depot(e.1, tv, has_target);
    let mut k: usize = 0;
    assert(ds.take(0) =~= Seq::<(Seq<char>, DepotInfoModel)>::empty());
    assert(depot_entries_view(out@) =~= ds.take(0).filter(keep));
    while k < depots.len()
        invariant
            k <= depots.len(),
            ds == depot_entries_view(depots@),
            target@ == tv,
            keep == (|e: (Seq<char>, DepotInfoModel)| keeps_depot(e.1, tv, has_target)),
            depot_entries_view(out@) == ds.take(k as int).filter(keep),
        decreases depots.len() - k,
    {
        assert(ds[k as int] == (depots@[k as int].0@, depots@[k as int].1@));
        assert(ds.take(k as int + 1).drop_last() =~= ds.take(k as int));
        assert(ds.take(k as int + 1).last() == ds[k as int]);
        proof { reveal_with_fuel(Seq::<(Seq<char>, DepotInfoModel)>::filter, 1); }
        let info = &depots[k].1;
        let kept = match &info.language {
            None => true,
            Some(lang) => text_eq(lang.as_str(), target.as_str()) || (text_eq(lang.as_str(), "english") && !has_target),
        };
        assert(kept == keeps_depot(ds[k as int].1, tv, has_target));
        if kept {
            let e = (depots[k].0.clone(), DepotInfo { gid: copy_opt(&info.gid), language: copy_opt(&info.language) });
            let ghost before = out@;
            out.push(e);
            assert(depot_entries_view(out@) =~= depot_entries_view(before).push(ds[k as int]));
        }
        k = k + 1;
    }
    assert(ds.take(depots.len() as int) =~= ds);
    out
}


// ---------------------------------------------------------------------------
// Public app information from a SteamCMD answer
// ---------------------------------------------------------------------------

/// Why an answer holds no information about the app.
#[derive(Debug, PartialEq, Eq, Structural)]
pub enum AppInfoError {
    /// No `data.{appid}` member.
    AppNotFound,
}

/// The texts of an app-information record.
pub struct AppInfoModel {
    pub name: Option<Seq<char>>,
    pub buildid: Option<u64>,
    pub depots: Seq<(Seq<char>, DepotInfoModel)>,
    pub dlcs: Seq<Seq<char>>,
}

/// A depot member of `depots`: numbered keys only, with the public manifest id
/// (`manifests.public.gid`) and the lower-cased `config.language`; depots
/// without a manifest id are left out.
pub open spec fn depot_members(es: Seq<(String, JsonValue)>) -> Seq<(Seq<char>, DepotInfoModel)>
    decreases es.len(),
{
    if es.len() == 0 {
        Seq::empty()
    } else {
        let rest = depot_members(es.drop_last());
        let e = es.last();
        let gid = as_text(at(at(at(Some(e.1), "manifests"@), "public"@), "gid"@));
        let lang = match as_text(at(at(Some(e.1), "config"@), "language"@)) {
            Some(l) => Some(lower_text(l)),
            None => None,
        };
        if parse_u64(e.0@) is Some && gid is Some {
            rest.push((e.0@, DepotInfoModel { gid: gid, language: lang }))
        } else {
            rest
        }
    }
}

/// The DLC ids of a comma-separated list, trimmed, empty ones left out.
pub open spec fn dlc_list(pieces: Seq<Seq<char>>) -> Seq<Seq<char>>
    decreases pieces.len(),
{
    if pieces.len() == 0 {
        Seq::empty()
    } else {
        let rest = dlc_list(pieces.drop_last());
        let t = trimmed(pieces.last());
        if t.len() > 0 { rest.push(t) } else { rest }
    }
}

/// What a SteamCMD answer says of an app: `data.{appid}`'s `common.name`,
/// `depots.branches.public.buildid`, its depots, and `extended.listofdlc`.
pub open spec fn app_info(root: JsonValue, appid: Seq<char>) -> Result<AppInfoModel, AppInfoError> {
    let data = at(at(Some(root), "data"@), appid);
    if data is None {
        Err(AppInfoError::AppNotFound)
    } else {
        let bid = as_text(at(at(at(at(data, "depots"@), "branches"@), "public"@), "buildid"@));
        Ok(AppInfoModel {
            name: as_text(at(at(data, "common"@), "name"@)),
            buildid: match bid {
                Some(b) => parse_u64(b),
                None => None,
            },
            depots: match at(data, "depots"@) {
                Some(JsonValue::Object(es)) => depot_members(es@),
                _ => Seq::empty(),
            },
            dlcs: match as_text(at(at(data, "extended"@), "listofdlc"@)) {
                Some(l) => dlc_list(split_char(l, ',')),
                None => Seq::empty(),
            },
        })
    }
}

pub open spec fn info_view(i: SteamCmdInfo) -> AppInfoModel {
    AppInfoModel {
        name: opt_text(i.name),
        buildid: i.buildid,
        depots: depot_entries_view(i.depots@),
        dlcs: strings_view(i.dlcs@),
    }
}

fn depot_of(key: &String, val: &JsonValue) -> (r: Option<(String, DepotInfo)>)
    ensures
        ({
            let gid = as_text(at(at(at(Some(*val), "manifests"@), "public"@), "gid"@));
            let lang = match as_text(at(at(Some(*val), "config"@), "language"@)) {
                Some(l) => Some(lower_text(l)),
                None => None,
            };
            if parse_u64(key@) is Some && gid is Some {
                r matches Some(e) && e.0@ == key@ && e.1@ == DepotInfoModel { gid: gid, language: lang }
            } else {
                r is None
            }
        }),
{
    if parse_u64_text(key).is_none() {
        return None;
    }
    let gid = text_of(get_in(get_in(get_in(Some(val), "manifests"), "public"), "gid"));
    let lang = match text_of(get_in(get_in(Some(val), "config"), "language")) {
        Some(l) => Some(to_lowercase_text(&l)),
        None => None,
    };
    match gid {
        Some(g) => Some((key.clone(), DepotInfo { gid: Some(g), language: lang })),
        None => None,
    }
}

/// The public information a SteamCMD answer gives about an app.
pub fn app_info_from_json(root: &JsonValue, appid: &str) -> (r: Result<SteamCmdInfo, AppInfoError>)
    ensures
        match app_info(*root, appid@) {
            Ok(m) => r matches Ok(i) && info_view(i) == m,
            Err(e) => r == Err::<SteamCmdInfo, AppInfoError>(e),
        },
{
    let data = get_in(get_in(Some(root), "data"), appid);
    if data.is_none() {
        return Err(AppInfoError::AppNotFound);
    }
    let name = text_of(get_in(get_in(data, "common"), "name"));
    let bid = text_of(get_in(get_in(get_in(get_in(data, "depots"), "branches"), "public"), "buildid"));
    let buildid = match bid {
        Some(b) => parse_u64_text(&b),
        None => None,
    };
    let mut depots: Vec<(String, DepotInfo)> = Vec::new();
    match get_in(data, "depots") {
        Some(JsonValue::Object(es)) => {
            let mut i: usize = 0;
            while i < es.len()
                invariant
                    i <= es.len(),
                    depot_entries_view(depots@) == depot_members(es@.take(i as int)),
                decreases es.len() - i,
            {
                proof {
                    assert(es@.take(i as int + 1).drop_last() =~= es@.take(i as int));
                    assert(es@.take(i as int + 1).last() == es@[i as int]);
                }
                match depot_of(&es[i].0, &es[i].1) {
                    Some(e) => {
                        let ghost ev = (e.0@, e.1@);
                        let ghost before = depots@;
                        depots.push(e);
                        assert(depot_entries_view(depots@) =~= depot_entries_view(before).push(ev));
                    },
                    None => {},
                }
                i = i + 1;
            }
            assert(es@.take(es.len() as int) =~= es@);
        },
        _ => {},
    }
    let mut dlcs: Vec<String> = Vec::new();
    match text_of(get_in(get_in(data, "extended"), "listofdlc")) {
        Some(l) => {
            let cs = chars_of(&l);
            let pieces = split_chars(&cs, ',');
            let ghost ps = pieces@.map_values(|v: Vec<char>| v@);
            let mut k: usize = 0;
            while k < pieces.len()
                invariant
                    k <= pieces.len(),
                    ps == pieces@.map_values(|v: Vec<char>| v@),
                    strings_view(dlcs@) == dlc_list(ps.take(k as int)),
                decreases pieces.len() - k,
            {
                proof {
                    assert(ps.take(k as int + 1).drop_last() =~= ps.take(k as int));
                    assert(ps.take(k as int + 1).last() == pieces@[k as int]@);
                }
                let t = trim_text(&string_of(&pieces[k]));
                if chars_of(&t).len() > 0 {
                    proof { crate::text::lemma_strings_view_push(dlcs@, t); }
                    dlcs.push(t);
                }
                k = k + 1;
            }
            assert(ps.take(pieces.len() as int) =~= ps);
        },
        None => {},
    }
    let r = SteamCmdInfo { name, buildid, depots, dlcs };
    proof {
        let m = app_info(*root, appid@)->Ok_0;
        assert(opt_text(r.name) == m.name);
        assert(r.buildid == m.buildid);
        assert(depot_entries_view(r.depots@) == m.depots);
        assert(strings_view(r.dlcs@) == m.dlcs);
    }
    Ok(r)
}

// ---------------------------------------------------------------------------
// The hierarchy of a game
// ---------------------------------------------------------------------------

pub struct DepotNodeModel {
    pub depot_id: Seq<char>,
    pub gid: Option<Seq<char>>,
    pub size: Option<u64>,
    pub language: Option<Seq<char>>,
    pub is_common: bool,
    pub is_dlc_depot: bool,
}

impl View for DepotNode {
    type V = DepotNodeModel;

    open spec fn view(&self) -> DepotNodeModel {
        DepotNodeModel {
            depot_id: self.depot_id@,
            gid: opt_text(self.gid),
            size: self.size,
            language: opt_text(self.language),
            is_common: self.is_common,
            is_dlc_depot: self.is_dlc_depot,
        }
    }
}

pub open spec fn depot_nodes_view(ds: Seq<DepotNode>) -> Seq<DepotNodeModel> {
    ds.map_values(|d: DepotNode| d@)
}

pub struct DlcNodeModel {
    pub app_id: Seq<char>,
    pub name: Seq<char>,
    pub depots: Seq<DepotNodeModel>,
    pub selected: bool,
}

impl View for DlcNode {
    type V = DlcNodeModel;

    open spec fn view(&self) -> DlcNodeModel {
        DlcNodeModel { app_id: self.app_id@, name: self.name@, depots: depot_nodes_view(self.depots@), selected: self.selected }
    }
}

pub open spec fn dlc_nodes_view(ds: Seq<DlcNode>) -> Seq<DlcNodeModel> {
    ds.map_values(|d: DlcNode| d@)
}

/// `data.{appid}` of a SteamCMD answer.
pub open spec fn app_data(root: JsonValue, appid: Seq<char>) -> Option<JsonValue> {
    at(at(Some(root), "data"@), appid)
}

/// The app's `common.name`.
pub open spec fn raw_name_of(root: JsonValue, appid: Seq<char>) -> Option<Seq<char>> {
    as_text(at(at(app_data(root, appid), "common"@), "name"@))
}

/// A manifest id as the answer gives it: a string as it is, a non-negative
/// whole number in decimal.
pub open spec fn gid_text(v: Option<JsonValue>) -> Option<Seq<char>> {
    match v {
        Some(JsonValue::Str(s)) => Some(s@),
        Some(JsonValue::Number(t)) => match parse_u64(t@) {
            Some(n) => Some(crate::text::decimal(n as nat)),
            None => None,
        },
        _ => None,
    }
}

/// A size as the answer gives it: a string holding a 64-bit whole number, or
/// a number read as a size (its whole part, 0 when negative, `u64::MAX` past
/// the range).
pub open spec fn size_value(v: Option<JsonValue>) -> Option<u64> {
    match v {
        Some(JsonValue::Str(s)) => parse_u64(s@),
        Some(JsonValue::Number(t)) => crate::json_number::number_u64(t@),
        _ => None,
    }
}

/// A depot runs on Windows unless its `config.oslist` leaves Windows out.
pub open spec fn windows_depot(val: JsonValue) -> bool {
    match as_text(at(at(Some(val), "config"@), "oslist"@)) {
        Some(os) => crate::text::contains_text(os, "windows"@),
        None => true,
    }
}

/// A depot's `config.language`, lower-cased.
pub open spec fn depot_language(val: JsonValue) -> Option<Seq<char>> {
    match as_text(at(at(Some(val), "config"@), "language"@)) {
        Some(l) => Some(lower_text(l)),
        None => None,
    }
}

/// The depot a member of `depots` stands for: a numbered Windows depot that
/// is language-neutral or in the target language.
pub open spec fn depot_node_of(key: Seq<char>, val: JsonValue, target: Seq<char>) -> Option<DepotNodeModel> {
    let lang = depot_language(val);
    if parse_u64(key) is Some && windows_depot(val) && (lang is None || lang == Some(target)) {
        Some(DepotNodeModel {
            depot_id: key,
            gid: gid_text(at(at(at(Some(val), "manifests"@), "public"@), "gid"@)),
            size: size_value(at(Some(val), "maxsize"@)),
            language: lang,
            is_common: lang is None,
            is_dlc_depot: json_get(val, "dlcappid"@) is Some,
        })
    } else {
        None
    }
}

pub open spec fn depot_nodes_of(es: Seq<(String, JsonValue)>, target: Seq<char>) -> Seq<DepotNodeModel>
    decreases es.len(),
{
    if es.len() == 0 {
        Seq::empty()
    } else {
        let rest = depot_nodes_of(es.drop_last(), target);
        match depot_node_of(es.last().0@, es.last().1, target) {
            Some(d) => rest.push(d),
            None => rest,
        }
    }
}

/// The depots of an app for a target language, in the answer's order.
pub open spec fn raw_depots_of(root: JsonValue, appid: Seq<char>, target: Seq<char>) -> Seq<DepotNodeModel> {
    match at(app_data(root, appid), "depots"@) {
        Some(JsonValue::Object(es)) => depot_nodes_of(es@, target),
        _ => Seq::empty(),
    }
}

/// The DLCs the depots claim (`dlcappid`), each added unless already there.
pub open spec fn claimed_dlcs(ids: Seq<Seq<char>>, es: Seq<(String, JsonValue)>) -> Seq<Seq<char>>
    decreases es.len(),
{
    if es.len() == 0 {
        ids
    } else {
        let rest = claimed_dlcs(ids, es.drop_last());
        match as_text(at(Some(es.last().1), "dlcappid"@)) {
            Some(d) => crate::vdf_injector::with_id(rest, d),
            None => rest,
        }
    }
}

/// Ids in byte order, repeats kept.
pub open spec fn byte_order(ids: Seq<Seq<char>>) -> Seq<Seq<char>>
    decreases ids.len(),
{
    if ids.len() == 0 {
        Seq::empty()
    } else {
        let s = byte_order(ids.drop_last());
        s.insert(crate::commands::steam_install::first_not_below(s, ids.last(), 0), ids.last())
    }
}

/// The DLC ids of an app: `extended.listofdlc`, then those its depots claim;
/// in byte order.
pub open spec fn raw_dlc_ids_of(root: JsonValue, appid: Seq<char>) -> Seq<Seq<char>> {
    let listed = match as_text(at(at(app_data(root, appid), "extended"@), "listofdlc"@)) {
        Some(l) => dlc_list(split_char(l, ',')),
        None => Seq::empty(),
    };
    let all = match at(app_data(root, appid), "depots"@) {
        Some(JsonValue::Object(es)) => claimed_dlcs(listed, es@),
        _ => listed,
    };
    byte_order(all)
}

/// The name of an app in a SteamCMD answer.
pub fn raw_name(root: &JsonValue, appid: &str) -> (r: Option<String>)
    ensures
        opt_text(r) == raw_name_of(*root, appid@),
{
    let data = get_in(get_in(Some(root), "data"), appid);
    text_of(get_in(get_in(data, "common"), "name"))
}

fn gid_value(v: Option<&JsonValue>) -> (r: Option<String>)
    ensures
        opt_text(r) == gid_text(match v {
            Some(x) => Some(*x),
            None => None,
        }),
{
    match v {
        Some(JsonValue::Str(s)) => Some(s.clone()),
        Some(JsonValue::Number(t)) => match parse_u64_text(t) {
            Some(n) => Some(crate::text::decimal_string(n)),
            None => None,
        },
        _ => None,
    }
}

fn size_of_value(v: Option<&JsonValue>) -> (r: Option<u64>)
    ensures
        r == size_value(match v {
            Some(x) => Some(*x),
            None => None,
        }),
{
    match v {
        Some(JsonValue::Str(s)) => parse_u64_text(s),
        Some(JsonValue::Number(t)) => crate::json_number::number_as_u64(t),
        _ => None,
    }
}

fn depot_node(key: &String, val: &JsonValue, target: &str) -> (r: Option<DepotNode>)
    ensures
        match depot_node_of(key@, *val, target@) {
            Some(d) => r matches Some(n) && n@ == d,
            None => r is None,
        },
{
    if parse_u64_text(key).is_none() {
        return None;
    }
    let windows = match text_of(get_in(get_in(Some(val), "config"), "oslist")) {
        Some(os) => crate::text::contains_str(&os, "windows"),
        None => true,
    };
    if !windows {
        return None;
    }
    let lang = match text_of(get_in(get_in(Some(val), "config"), "language")) {
        Some(l) => Some(to_lowercase_text(&l)),
        None => None,
    };
    let is_common = lang.is_none();
    let is_target = match &lang {
        Some(l) => text_eq(l, target),
        None => false,
    };
    if !(is_common || is_target) {
        return None;
    }
    let gid = gid_value(get_in(get_in(get_in(Some(val), "manifests"), "public"), "gid"));
    let size = size_of_value(get_in(Some(val), "maxsize"));
    let is_dlc_depot = crate::json::get(val, "dlcappid").is_some();
    Some(DepotNode { depot_id: key.clone(), gid, size, language: lang, is_common, is_dlc_depot })
}

/// The depots of an app for a target language (already lower-cased).
pub fn raw_depots(root: &JsonValue, appid: &str, target: &str) -> (r: Vec<DepotNode>)
    ensures
        depot_nodes_view(r@) == raw_depots_of(*root, appid@, target@),
{
    let mut nodes: Vec<DepotNode> = Vec::new();
    let data = get_in(get_in(Some(root), "data"), appid);
    match get_in(data, "depots") {
        Some(JsonValue::Object(es)) => {
            let mut i: usize = 0;
            while i < es.len()
                invariant
                    i <= es.len(),
                    depot_nodes_view(nodes@) == depot_nodes_of(es@.take(i as int), target@),
                decreases es.len() - i,
            {
                proof {
                    assert(es@.take(i as int + 1).drop_last() =~= es@.take(i as int));
                    assert(es@.take(i as int + 1).last() == es@[i as int]);
                }
                match depot_node(&es[i].0, &es[i].1, target) {
                    Some(n) => {
                        let ghost before = depot_nodes_view(nodes@);
                        let ghost nv = n@;
                        nodes.push(n);
                        assert(depot_nodes_view(nodes@) =~= before.push(nv));
                    },
                    None => {},
                }
                i = i + 1;
            }
            assert(es@.take(es.len() as int) =~= es@);
        },
        _ => {},
    }
    nodes
}

/// Puts the ids in byte order, repeats kept.
pub fn order_bytes(ids: Vec<String>) -> (r: Vec<String>)
    ensures
        strings_view(r@) == byte_order(strings_view(ids@)),
{
    let ghost iv = strings_view(ids@);
    let mut out: Vec<String> = Vec::new();
    let mut i: usize = 0;
    while i < ids.len()
        invariant
            i <= ids.len(),
            iv == strings_view(ids@),
            strings_view(out@) == byte_order(iv.take(i as int)),
        decreases ids.len() - i,
    {
        proof {
            assert(iv.take(i as int + 1).drop_last() =~= iv.take(i as int));
            assert(iv[i as int] == ids@[i as int]@);
        }
        let x = &ids[i];
        let ghost sv = strings_view(out@);
        let mut j: usize = 0;
        while j < out.len() && crate::app_list::bytes_less(out[j].as_str().as_bytes(), x.as_str().as_bytes())
            invariant
                j <= out.len(),
                sv == strings_view(out@),
                crate::commands::steam_install::first_not_below(sv, x@, 0)
                    == crate::commands::steam_install::first_not_below(sv, x@, j as int),
            decreases out.len() - j,
        {
            assert(sv[j as int] == out@[j as int]@);
            j = j + 1;
        }
        proof {
            if j < out.len() {
                assert(sv[j as int] == out@[j as int]@);
            }
        }
        let t = x.clone();
        let ghost tv = t@;
        out.insert(j, t);
        assert(strings_view(out@) =~= sv.insert(j as int, tv));
        i = i + 1;
    }
    assert(iv.take(ids.len() as int) =~= iv);
    out
}

/// The DLC ids of an app in a SteamCMD answer.
pub fn raw_dlc_ids(root: &JsonValue, appid: &str) -> (r: Vec<String>)
    ensures
        strings_view(r@) == raw_dlc_ids_of(*root, appid@),
{
    let data = get_in(get_in(Some(root), "data"), appid);
    let mut ids: Vec<String> = Vec::new();
    assert(strings_view(ids@) =~= Seq::<Seq<char>>::empty());
    match text_of(get_in(get_in(data, "extended"), "listofdlc")) {
        Some(l) => {
            let cs = chars_of(&l);
            let pieces = split_chars(&cs, ',');
            let ghost ps = pieces@.map_values(|v: Vec<char>| v@);
            let mut k: usize = 0;
            while k < pieces.len()
                invariant
                    k <= pieces.len(),
                    ps == pieces@.map_values(|v: Vec<char>| v@),
                    strings_view(ids@) == dlc_list(ps.take(k as int)),
                decreases pieces.len() - k,
            {
                proof {
                    assert(ps.take(k as int + 1).drop_last() =~= ps.take(k as int));
                    assert(ps.take(k as int + 1).last() == pieces@[k as int]@);
                }
                let t = trim_text(&string_of(&pieces[k]));
                if chars_of(&t).len() > 0 {
                    proof { crate::text::lemma_strings_view_push(ids@, t); }
                    ids.push(t);
                }
                k = k + 1;
            }
            assert(ps.take(pieces.len() as int) =~= ps);
        },
        None => {},
    }
    let ghost listed = strings_view(ids@);
    match get_in(data, "depots") {
        Some(JsonValue::Object(es)) => {
            let mut i: usize = 0;
            while i < es.len()
                invariant
                    i <= es.len(),
                    strings_view(ids@) == claimed_dlcs(listed, es@.take(i as int)),
                decreases es.len() - i,
            {
                proof {
                    assert(es@.take(i as int + 1).drop_last() =~= es@.take(i as int));
                    assert(es@.take(i as int + 1).last() == es@[i as int]);
                }
                match text_of(get_in(Some(&es[i].1), "dlcappid")) {
                    Some(d) => {
                        if !crate::app_list::holds_text(&ids, &d) {
                            proof { crate::text::lemma_strings_view_push(ids@, d); }
                            ids.push(d);
                        }
                    },
                    None => {},
                }
                i = i + 1;
            }
            assert(es@.take(es.len() as int) =~= es@);
        },
        _ => {},
    }
    order_bytes(ids)
}

/// Where a DLC's details came from: its SteamCMD answer, else its store name,
/// else nothing.
pub enum DlcSource {
    Info(JsonValue),
    StoreName(String),
    Unavailable,
}

/// A DLC name that marks media (soundtrack, artbook, score).
pub open spec fn media_name(lower: Seq<char>) -> bool {
    crate::text::contains_text(lower, "soundtrack"@) || crate::text::contains_text(lower, " ost"@)
        || crate::text::contains_text(lower, "artbook"@) || crate::text::contains_text(lower, "score"@)
}

/// A DLC name that marks a beta, a test or a server.
pub open spec fn beta_name(lower: Seq<char>) -> bool {
    crate::text::contains_text(lower, "beta"@) || crate::text::contains_text(lower, "test"@)
        || crate::text::contains_text(lower, "server"@)
}

/// A DLC node: from its answer, named (`DLC {id}` when unnamed), with its
/// depots for the language, selected unless media or a beta; from its store
/// name, selected with no depots; else named `DLC {id} (Info Unavailable)`,
/// selected with no depots.
pub open spec fn dlc_node_model(id: Seq<char>, src: DlcSource, target: Seq<char>) -> DlcNodeModel {
    match src {
        DlcSource::Info(root) => {
            let name = match raw_name_of(root, id) {
                Some(n) => n,
                None => "DLC "@ + id,
            };
            DlcNodeModel {
                app_id: id,
                name: name,
                depots: raw_depots_of(root, id, target),
                selected: !media_name(lower_text(name)) && !beta_name(lower_text(name)),
            }
        },
        DlcSource::StoreName(n) => DlcNodeModel { app_id: id, name: n@, depots: Seq::empty(), selected: true },
        DlcSource::Unavailable => DlcNodeModel {
            app_id: id,
            name: "DLC "@ + id + " (Info Unavailable)"@,
            depots: Seq::empty(),
            selected: true,
        },
    }
}

/// A DLC read from its answer is selected exactly when its lower-cased name
/// holds none of `soundtrack`, ` ost`, `artbook`, `score` (media), `beta`,
/// `test`, `server`; one known only by its store name, or not at all, is
/// always selected.
pub proof fn law_dlc_selection(id: Seq<char>, src: DlcSource, target: Seq<char>)
    ensures
        ({
            let node = dlc_node_model(id, src, target);
            let l = lower_text(node.name);
            match src {
                DlcSource::Info(_) => node.selected <==> !(
                    crate::text::contains_text(l, "soundtrack"@) || crate::text::contains_text(l, " ost"@)
                    || crate::text::contains_text(l, "artbook"@) || crate::text::contains_text(l, "score"@)
                    || crate::text::contains_text(l, "beta"@) || crate::text::contains_text(l, "test"@)
                    || crate::text::contains_text(l, "server"@)),
                _ => node.selected,
            }
        }),
{
}

/// The node of one DLC (`target` already lower-cased).
pub fn dlc_node(dlc_id: &str, src: &DlcSource, target: &str) -> (r: DlcNode)
    ensures
        r@ == dlc_node_model(dlc_id@, *src, target@),
{
    match src {
        DlcSource::Info(root) => {
            let name = match raw_name(root, dlc_id) {
                Some(n) => n,
                None => crate::text::concat("DLC ", dlc_id),
            };
            let lower = to_lowercase_text(&name);
            let media = crate::text::contains_str(&lower, "soundtrack") || crate::text::contains_str(&lower, " ost")
                || crate::text::contains_str(&lower, "artbook") || crate::text::contains_str(&lower, "score");
            let beta = crate::text::contains_str(&lower, "beta") || crate::text::contains_str(&lower, "test")
                || crate::text::contains_str(&lower, "server");
            let depots = raw_depots(root, dlc_id, target);
            DlcNode { app_id: dlc_id.to_string(), name, depots, selected: !media && !beta }
        },
        DlcSource::StoreName(n) => {
            let r = DlcNode { app_id: dlc_id.to_string(), name: n.clone(), depots: Vec::new(), selected: true };
            assert(depot_nodes_view(r.depots@) =~= Seq::<DepotNodeModel>::empty());
            r
        },
        DlcSource::Unavailable => {
            let r = DlcNode {
                app_id: dlc_id.to_string(),
                name: crate::text::concat3("DLC ", dlc_id, " (Info Unavailable)"),
                depots: Vec::new(),
                selected: true,
            };
            assert(depot_nodes_view(r.depots@) =~= Seq::<DepotNodeModel>::empty());
            r
        },
    }
}

/// The first position from `i` whose id sorts after `x`'s.
pub open spec fn first_above(s: Seq<DlcNodeModel>, x: Seq<char>, i: int) -> int
    decreases s.len() - i,
{
    if i < 0 || i >= s.len() || crate::app_list::bytes_lt(vstd::utf8::encode_utf8(x), vstd::utf8::encode_utf8(s[i].app_id)) {
        i
    } else {
        first_above(s, x, i + 1)
    }
}

/// The DLCs in byte order of their ids, those with equal ids in their order.
pub open spec fn nodes_by_id(ns: Seq<DlcNodeModel>) -> Seq<DlcNodeModel>
    decreases ns.len(),
{
    if ns.len() == 0 {
        Seq::empty()
    } else {
        let s = nodes_by_id(ns.drop_last());
        s.insert(first_above(s, ns.last().app_id, 0), ns.last())
    }
}

/// Puts DLC nodes in byte order of their ids, keeping the order of equal ids.
pub fn sort_nodes_by_id(nodes: Vec<DlcNode>) -> (r: Vec<DlcNode>)
    ensures
        dlc_nodes_view(r@) == nodes_by_id(dlc_nodes_view(nodes@)),
{
    let ghost nv = dlc_nodes_view(nodes@);
    let n0 = nodes.len();
    let mut rest = nodes;
    let mut out: Vec<DlcNode> = Vec::new();
    let mut k: usize = 0;
    while rest.len() > 0
        invariant
            k <= nv.len(),
            nv.len() == n0,
            dlc_nodes_view(rest@) == nv.skip(k as int),
            dlc_nodes_view(out@) == nodes_by_id(nv.take(k as int)),
        decreases rest.len(),
    {
        let ghost r0 = rest@;
        proof {
            assert(dlc_nodes_view(r0).len() == r0.len());
            assert(dlc_nodes_view(r0)[0] == r0[0]@);
            assert(nv.skip(k as int)[0] == nv[k as int]);
        }
        let x = rest.remove(0);
        proof {
            assert(x@ == nv[k as int]);
            assert(dlc_nodes_view(rest@) =~= nv.skip(k as int + 1)) by {
                assert forall|z: int| 0 <= z < rest@.len() implies #[trigger] dlc_nodes_view(rest@)[z] == nv.skip(k as int + 1)[z] by {
                    assert(rest@[z] == r0[z + 1]);
                    assert(dlc_nodes_view(r0)[z + 1] == r0[z + 1]@);
                    assert(nv.skip(k as int)[z + 1] == nv.skip(k as int + 1)[z]);
                }
            }
            assert(nv.take(k as int + 1).drop_last() =~= nv.take(k as int));
            assert(nv.take(k as int + 1).last() == x@);
        }
        let ghost sv = dlc_nodes_view(out@);
        let mut j: usize = 0;
        while j < out.len() && !crate::app_list::bytes_less(x.app_id.as_str().as_bytes(), out[j].app_id.as_str().as_bytes())
            invariant
                j <= out.len(),
                sv == dlc_nodes_view(out@),
                first_above(sv, x.app_id@, 0) == first_above(sv, x.app_id@, j as int),
            decreases out.len() - j,
        {
            assert(sv[j as int] == out@[j as int]@);
            j = j + 1;
        }
        proof {
            if j < out.len() {
                assert(sv[j as int] == out@[j as int]@);
            }
        }
        let ghost xv = x@;
        out.insert(j, x);
        assert(dlc_nodes_view(out@) =~= sv.insert(j as int, xv));
        k = k + 1;
    }
    assert(nv.take(k as int) =~= nv);
    out
}

proof fn lemma_first_above(s: Seq<DlcNodeModel>, x: Seq<char>, i: int)
    requires
        0 <= i <= s.len(),
    ensures
        i <= first_above(s, x, i) <= s.len(),
        forall|k: int| i <= k < first_above(s, x, i) ==>
            !crate::app_list::bytes_lt(vstd::utf8::encode_utf8(x), vstd::utf8::encode_utf8(#[trigger] s[k].app_id)),
        first_above(s, x, i) < s.len() ==>
            crate::app_list::bytes_lt(vstd::utf8::encode_utf8(x), vstd::utf8::encode_utf8(s[first_above(s, x, i)].app_id)),
    decreases s.len() - i,
{
    if i < s.len() && !crate::app_list::bytes_lt(vstd::utf8::encode_utf8(x), vstd::utf8::encode_utf8(s[i].app_id)) {
        lemma_first_above(s, x, i + 1);
    }
}

/// DLCs in id order: no DLC's id sorts below that of one before it.
pub open spec fn ids_ascending(s: Seq<DlcNodeModel>) -> bool {
    forall|a: int, b: int| 0 <= a < b < s.len() ==>
        !crate::app_list::bytes_lt(vstd::utf8::encode_utf8(#[trigger] s[b].app_id), vstd::utf8::encode_utf8(#[trigger] s[a].app_id))
}

/// Ordering DLCs by id keeps every DLC, as often as it came, and leaves no
/// DLC after one whose id sorts above its own.
pub proof fn law_nodes_by_id(ns: Seq<DlcNodeModel>)
    ensures
        ids_ascending(nodes_by_id(ns)),
        nodes_by_id(ns).to_multiset() == ns.to_multiset(),
    decreases ns.len(),
{
    broadcast use vstd::seq_lib::to_multiset_insert, vstd::seq_lib::to_multiset_build;
    if ns.len() > 0 {
        let pre = ns.drop_last();
        let x = ns.last();
        law_nodes_by_id(pre);
        let s = nodes_by_id(pre);
        let p = first_above(s, x.app_id, 0);
        lemma_first_above(s, x.app_id, 0);
        let r = s.insert(p, x);
        let ex = vstd::utf8::encode_utf8(x.app_id);
        assert forall|a: int, b: int| 0 <= a < b < r.len() implies
            !crate::app_list::bytes_lt(vstd::utf8::encode_utf8(#[trigger] r[b].app_id), vstd::utf8::encode_utf8(#[trigger] r[a].app_id)) by {
            if b < p {
                assert(r[a] == s[a] && r[b] == s[b]);
            } else if b == p {
                assert(r[a] == s[a] && r[b] == x);
            } else if a < p {
                assert(r[a] == s[a] && r[b] == s[b - 1]);
            } else if a == p {
                assert(r[a] == x && r[b] == s[b - 1]);
                let ep = vstd::utf8::encode_utf8(s[p].app_id);
                let eb = vstd::utf8::encode_utf8(s[b - 1].app_id);
                if crate::app_list::bytes_lt(eb, ex) {
                    crate::app_list::lemma_bytes_lt_trans(eb, ex, ep);
                    if b - 1 == p {
                        crate::app_list::lemma_bytes_lt_irrefl(ep);
                    }
                }
            } else {
                assert(r[a] == s[a - 1] && r[b] == s[b - 1]);
            }
        }
        assert(ns =~= pre.push(x));
        assert(r.to_multiset() == s.to_multiset().insert(x));
        assert(pre.push(x).to_multiset() == pre.to_multiset().insert(x));
    } else {
        assert(nodes_by_id(ns) =~= ns);
    }
}

pub struct HierarchyModel {
    pub root_id: Seq<char>,
    pub root_name: Seq<char>,
    pub base_depots: Seq<DepotNodeModel>,
    pub dlcs: Seq<DlcNodeModel>,
}

impl View for GameHierarchy {
    type V = HierarchyModel;

    open spec fn view(&self) -> HierarchyModel {
        HierarchyModel {
            root_id: self.root_id@,
            root_name: self.root_name@,
            base_depots: depot_nodes_view(self.base_depots@),
            dlcs: dlc_nodes_view(self.dlcs@),
        }
    }
}

/// A game's hierarchy from its SteamCMD answer and its DLC nodes: named
/// (`App {appid}` when unnamed), with its depots for the language
/// (lower-cased), and the DLCs in byte order of their ids.
pub open spec fn hierarchy_model(appid: Seq<char>, root: JsonValue, target_lang: Seq<char>, dlcs: Seq<DlcNodeModel>) -> HierarchyModel {
    HierarchyModel {
        root_id: appid,
        root_name: match raw_name_of(root, appid) {
            Some(n) => n,
            None => "App "@ + appid,
        },
        base_depots: raw_depots_of(root, appid, lower_text(target_lang)),
        dlcs: nodes_by_id(dlcs),
    }
}

/// The DLC nodes of the listed ids, each built from what was fetched for it.
pub open spec fn listed_nodes(ids: Seq<Seq<char>>, sources: Seq<DlcSource>, lang: Seq<char>) -> Seq<DlcNodeModel> {
    Seq::new(ids.len(), |i: int| dlc_node_model(ids[i], sources[i], lang))
}

/// A game's hierarchy from its store answer and what was fetched for each
/// DLC the answer lists (`sources[i]` for the `i`-th listed id): one node per
/// listed id, in id order, with the depots for the lower-cased language.
pub fn fetch_full_hierarchy(appid: &str, root: &JsonValue, target_lang: &str, sources: &Vec<DlcSource>) -> (r: GameHierarchy)
    requires
        sources.len() == raw_dlc_ids_of(*root, appid@).len(),
    ensures
        r@ == hierarchy_model(appid@, *root, target_lang@,
            listed_nodes(raw_dlc_ids_of(*root, appid@), sources@, lower_text(target_lang@))),
        r.dlcs.len() == raw_dlc_ids_of(*root, appid@).len(),
        dlc_nodes_view(r.dlcs@).to_multiset()
            == listed_nodes(raw_dlc_ids_of(*root, appid@), sources@, lower_text(target_lang@)).to_multiset(),
{
    let ids = raw_dlc_ids(root, appid);
    let lang = to_lowercase_text(target_lang);
    let ghost want = listed_nodes(strings_view(ids@), sources@, lang@);
    let mut nodes: Vec<DlcNode> = Vec::new();
    let mut i: usize = 0;
    while i < ids.len()
        invariant
            i <= ids.len(),
            ids.len() == sources.len(),
            want == listed_nodes(strings_view(ids@), sources@, lang@),
            dlc_nodes_view(nodes@) == want.take(i as int),
        decreases ids.len() - i,
    {
        let n = dlc_node(&ids[i], &sources[i], &lang);
        let ghost before = dlc_nodes_view(nodes@);
        proof {
            assert(strings_view(ids@)[i as int] == ids@[i as int]@);
            assert(want[i as int] == n@);
            assert(want.take(i as int + 1) =~= want.take(i as int).push(want[i as int]));
        }
        nodes.push(n);
        assert(dlc_nodes_view(nodes@) =~= before.push(n@));
        i = i + 1;
    }
    assert(want.take(ids.len() as int) =~= want);
    let ghost nv = dlc_nodes_view(nodes@);
    let r = hierarchy_from(appid, root, target_lang, nodes);
    proof {
        law_nodes_by_id(nv);
        assert(dlc_nodes_view(r.dlcs@).len() == r.dlcs.len());
        assert(dlc_nodes_view(r.dlcs@) == nodes_by_id(nv));
        nodes_by_id(nv).to_multiset_ensures();
        nv.to_multiset_ensures();
        assert(nodes_by_id(nv).len() == nv.len());
        assert(nv.len() == want.len());
    }
    r
}

pub fn hierarchy_from(appid: &str, root: &JsonValue, target_lang: &str, dlcs: Vec<DlcNode>) -> (r: GameHierarchy)
    ensures
        r@ == hierarchy_model(appid@, *root, target_lang@, dlc_nodes_view(dlcs@)),
{
    let lang = to_lowercase_text(target_lang);
    let root_name = match raw_name(root, appid) {
        Some(n) => n,
        None => crate::text::concat("App ", appid),
    };
    let base_depots = raw_depots(root, appid, &lang);
    let sorted = sort_nodes_by_id(dlcs);
    GameHierarchy { root_id: appid.to_string(), root_name, base_depots, dlcs: sorted }
}

// ---------------------------------------------------------------------------
// Store answers
// ---------------------------------------------------------------------------

/// A value as text: a string as it is, a number as written, else empty.
pub open spec fn value_text(v: Option<JsonValue>) -> Seq<char> {
    match v {
        Some(JsonValue::Str(s)) => s@,
        Some(JsonValue::Number(t)) => t@,
        _ => Seq::empty(),
    }
}

pub fn val_to_string(v: Option<&JsonValue>) -> (r: String)
    ensures
        r@ == value_text(match v {
            Some(x) => Some(*x),
            None => None,
        }),
{
    match v {
        Some(JsonValue::Str(s)) => s.clone(),
        Some(JsonValue::Number(t)) => t.clone(),
        _ => String::new(),
    }
}

/// What `as_u64` reads from a value: a number that is a whole number of at
/// most 64 bits.
pub open spec fn as_whole(v: Option<JsonValue>) -> Option<u64> {
    match v {
        Some(JsonValue::Number(t)) => parse_u64(t@),
        _ => None,
    }
}

fn whole_of(v: Option<&JsonValue>) -> (r: Option<u64>)
    ensures
        r == as_whole(match v {
            Some(x) => Some(*x),
            None => None,
        }),
{
    match v {
        Some(JsonValue::Number(t)) => parse_u64_text(t),
        _ => None,
    }
}

/// What `as_bool` reads from a value.
pub open spec fn as_flag(v: Option<JsonValue>) -> Option<bool> {
    match v {
        Some(JsonValue::Bool(b)) => Some(b),
        _ => None,
    }
}

fn flag_of(v: Option<&JsonValue>) -> (r: Option<bool>)
    ensures
        r == as_flag(match v {
            Some(x) => Some(*x),
            None => None,
        }),
{
    match v {
        Some(JsonValue::Bool(b)) => Some(*b),
        _ => None,
    }
}

/// A hit of a store search: the id as the answer gives it (twice), the name
/// (twice), whether it is free, and its small picture.
pub struct SearchResult {
    pub game_id: Option<JsonValue>,
    pub game_name: Option<String>,
    pub app_id: Option<JsonValue>,
    pub name: Option<String>,
    pub is_free: bool,
    pub tiny_image: Option<String>,
    pub logo: Option<String>,
}

pub struct SearchModel {
    pub id: Option<crate::json::JsonNode>,
    pub name: Option<Seq<char>>,
    pub is_free: bool,
    pub tiny_image: Option<Seq<char>>,
}

pub open spec fn opt_node(v: Option<JsonValue>) -> Option<crate::json::JsonNode> {
    match v {
        Some(x) => Some(crate::json::json_node(x)),
        None => None,
    }
}

/// A search result in the model, when both copies of the id and name agree
/// and no logo is set.
pub open spec fn search_view(r: SearchResult) -> Option<SearchModel> {
    if opt_node(r.game_id) == opt_node(r.app_id) && opt_text(r.game_name) == opt_text(r.name) && r.logo is None {
        Some(SearchModel { id: opt_node(r.app_id), name: opt_text(r.name), is_free: r.is_free, tiny_image: opt_text(r.tiny_image) })
    } else {
        None
    }
}

/// A hit costs money when its `price.final` is a whole number between 1 and
/// the largest 64-bit signed number.
pub open spec fn priced(item: JsonValue) -> bool {
    match as_whole(at(at(Some(item), "price"@), "final"@)) {
        Some(n) => 0 < n && n <= i64::MAX,
        None => false,
    }
}

pub open spec fn search_hit(item: JsonValue) -> SearchModel {
    SearchModel {
        id: opt_node(json_get(item, "id"@)),
        name: as_text(json_get(item, "name"@)),
        is_free: !priced(item),
        tiny_image: as_text(json_get(item, "tiny_image"@)),
    }
}

/// The hits of a store search answer: one for each of its `items`.
pub open spec fn search_hits(root: JsonValue) -> Seq<SearchModel> {
    match json_get(root, "items"@) {
        Some(JsonValue::Array(items)) => items@.map_values(|it: JsonValue| search_hit(it)),
        _ => Seq::empty(),
    }
}

fn copy_value(v: Option<&JsonValue>) -> (r: Option<JsonValue>)
    ensures
        opt_node(r) == opt_node(match v {
            Some(x) => Some(*x),
            None => None,
        }),
{
    match v {
        Some(x) => Some(crate::json::copy_json(x)),
        None => None,
    }
}

/// The hits of a store search answer.
pub fn store_search_results(root: &JsonValue) -> (r: Vec<SearchResult>)
    ensures
        r@.len() == search_hits(*root).len(),
        forall|i: int| 0 <= i < r@.len() ==> #[trigger] search_view(r@[i]) == Some(search_hits(*root)[i]),
{
    let mut out: Vec<SearchResult> = Vec::new();
    match crate::json::get(root, "items") {
        Some(JsonValue::Array(items)) => {
            let mut i: usize = 0;
            while i < items.len()
                invariant
                    i <= items.len(),
                    json_get(*root, "items"@) == Some(JsonValue::Array(*items)),
                    out.len() == i,
                    forall|j: int| 0 <= j < i ==> #[trigger] search_view(out@[j]) == Some(search_hit(items@[j])),
                decreases items.len() - i,
            {
                let item = &items[i];
                let id = copy_value(crate::json::get(item, "id"));
                let id2 = copy_value(crate::json::get(item, "id"));
                let name = text_of(crate::json::get(item, "name"));
                let name2 = text_of(crate::json::get(item, "name"));
                let price_final = whole_of(get_in(crate::json::get(item, "price"), "final"));
                let is_free = match price_final {
                    Some(n) => !(0 < n && n <= 0x7fff_ffff_ffff_ffffu64),
                    None => true,
                };
                let tiny_image = text_of(crate::json::get(item, "tiny_image"));
                let hit = SearchResult { game_id: id, game_name: name, app_id: id2, name: name2, is_free, tiny_image, logo: None };
                assert(search_view(hit) == Some(search_hit(*item)));
                out.push(hit);
                i = i + 1;
            }
        },
        _ => {},
    }
    out
}

/// The name a search result is shown under: its game name, else its name,
/// else nothing.
pub open spec fn shown_name(r: SearchResult) -> Seq<char> {
    match r.game_name {
        Some(n) => n@,
        None => match r.name {
            Some(n) => n@,
            None => Seq::empty(),
        },
    }
}

/// How a (lower-cased) name matches the (lower-cased) query: 0 when it is the
/// query, 1 when it starts with it, 2 otherwise.
pub open spec fn match_class(name: Seq<u8>, query: Seq<u8>) -> u8 {
    if name == query { 0 } else if query.is_prefix_of(name) { 1 } else { 2 }
}

/// A result's place in a search ranking, compared as the name order compares
/// its keys: the match class (as a single byte), then the length in bytes of
/// the lower-cased name, then that name's bytes.
pub open spec fn search_key(r: SearchResult, query: Seq<char>) -> (Seq<u8>, nat, Seq<u8>) {
    let n = vstd::utf8::encode_utf8(lower_text(shown_name(r)));
    (seq![match_class(n, vstd::utf8::encode_utf8(lower_text(query)))], n.len(), n)
}

pub open spec fn search_keys(rs: Seq<SearchResult>, query: Seq<char>) -> Seq<(Seq<u8>, nat, Seq<u8>)> {
    rs.map_values(|r: SearchResult| search_key(r, query))
}

/// The positions of the results in ranking order: exact matches, then names
/// that start with the query, then the rest; within each, shorter names
/// first, then by name; results that tie keep their order.
pub open spec fn search_ranking(rs: Seq<SearchResult>, query: Seq<char>) -> Seq<usize> {
    crate::order::stable_order(rs.len(), crate::app_list::ranks(search_keys(rs, query)))
}

/// A search result with every field taken by its model.
pub open spec fn result_model(r: SearchResult) -> (
    Option<crate::json::JsonNode>,
    Option<Seq<char>>,
    Option<crate::json::JsonNode>,
    Option<Seq<char>>,
    bool,
    Option<Seq<char>>,
    Option<Seq<char>>,
) {
    (opt_node(r.game_id), opt_text(r.game_name), opt_node(r.app_id), opt_text(r.name), r.is_free, opt_text(r.tiny_image), opt_text(r.logo))
}

fn copy_text(o: &Option<String>) -> (r: Option<String>)
    ensures
        opt_text(r) == opt_text(*o),
{
    match o {
        Some(s) => Some(s.clone()),
        None => None,
    }
}

fn copy_result(r: &SearchResult) -> (c: SearchResult)
    ensures
        result_model(c) == result_model(*r),
{
    SearchResult {
        game_id: copy_value(r.game_id.as_ref()),
        game_name: copy_text(&r.game_name),
        app_id: copy_value(r.app_id.as_ref()),
        name: copy_text(&r.name),
        is_free: r.is_free,
        tiny_image: copy_text(&r.tiny_image),
        logo: copy_text(&r.logo),
    }
}

fn starts_with_bytes(s: &[u8], p: &[u8]) -> (r: bool)
    ensures
        r == p@.is_prefix_of(s@),
{
    if p.len() > s.len() {
        return false;
    }
    let mut i: usize = 0;
    while i < p.len()
        invariant
            i <= p.len() <= s.len(),
            forall|k: int| 0 <= k < i ==> p@[k] == s@[k],
        decreases p.len() - i,
    {
        if p[i] != s[i] {
            return false;
        }
        i = i + 1;
    }
    true
}

proof fn lemma_one_byte_lt(a: u8, b: u8)
    ensures
        crate::app_list::bytes_lt(seq![a], seq![b]) == (a < b),
{
    if a == b {
        assert(seq![a].drop_first() =~= Seq::<u8>::empty());
        assert(seq![b].drop_first() =~= Seq::<u8>::empty());
        assert(!crate::app_list::bytes_lt(Seq::<u8>::empty(), Seq::<u8>::empty()));
    }
}

/// Whether one search key sorts strictly before another.
fn search_key_less(ca: u8, na: &String, cb: u8, nb: &String) -> (r: bool)
    ensures
        r == crate::app_list::key_lt(
            (seq![ca], vstd::utf8::encode_utf8(na@).len(), vstd::utf8::encode_utf8(na@)),
            (seq![cb], vstd::utf8::encode_utf8(nb@).len(), vstd::utf8::encode_utf8(nb@)),
        ),
{
    proof {
        lemma_one_byte_lt(ca, cb);
        if seq![ca] == seq![cb] {
            assert(seq![ca][0] == seq![cb][0]);
        }
    }
    if ca < cb {
        return true;
    }
    if ca != cb {
        return false;
    }
    let x = na.as_str().as_bytes();
    let y = nb.as_str().as_bytes();
    if x.len() < y.len() {
        return true;
    }
    if x.len() > y.len() {
        return false;
    }
    crate::app_list::bytes_less(x, y)
}

/// Orders search results for display: exact name matches first, then names
/// starting with the query, then the rest; within each group shorter names
/// first, then by name; names and query compared lower-cased, ties kept in
/// their order.
pub fn rank_search_results(results: Vec<SearchResult>, query: &str) -> (r: Vec<SearchResult>)
    requires
        results.len() <= u64::MAX,
    ensures
        r@.len() == results@.len(),
        forall|i: int| 0 <= i < r@.len() ==>
            #[trigger] result_model(r@[i]) == result_model(results@[search_ranking(results@, query@)[i] as int]),
{
    let ghost rv = results@;
    let ghost ks = search_keys(rv, query@);
    let lq = to_lowercase_text(query);
    let mut classes: Vec<u8> = Vec::new();
    let mut lowered: Vec<String> = Vec::new();
    let mut i: usize = 0;
    while i < results.len()
        invariant
            i <= results.len(),
            rv == results@,
            ks == search_keys(rv, query@),
            lq@ == lower_text(query@),
            lowered.len() == i,
            classes.len() == i,
            forall|k: int| 0 <= k < i ==> ks[k] == (
                #[trigger] seq![classes@[k]],
                vstd::utf8::encode_utf8(lowered@[k]@).len(),
                vstd::utf8::encode_utf8(lowered@[k]@),
            ),
        decreases results.len() - i,
    {
        let shown = match &results[i].game_name {
            Some(n) => n.clone(),
            None => match &results[i].name {
                Some(n) => n.clone(),
                None => String::new(),
            },
        };
        let low = to_lowercase_text(&shown);
        let nb = low.as_str().as_bytes();
        let qb = lq.as_str().as_bytes();
        let c: u8 = if crate::app_list::bytes_equal(nb, qb) {
            0
        } else if starts_with_bytes(nb, qb) {
            1
        } else {
            2
        };
        proof {
            assert(shown@ == shown_name(rv[i as int]));
            assert(ks[i as int] == search_key(rv[i as int], query@));
        }
        classes.push(c);
        lowered.push(low);
        i = i + 1;
    }
    let mut ranks_v: Vec<u64> = Vec::new();
    let mut a: usize = 0;
    while a < results.len()
        invariant
            a <= results.len(),
            results.len() <= u64::MAX,
            rv == results@,
            lowered.len() == results.len(),
            classes.len() == results.len(),
            ks.len() == results.len(),
            forall|k: int| 0 <= k < results.len() ==> ks[k] == (
                #[trigger] seq![classes@[k]],
                vstd::utf8::encode_utf8(lowered@[k]@).len(),
                vstd::utf8::encode_utf8(lowered@[k]@),
            ),
            ranks_v@ == crate::app_list::ranks(ks).take(a as int),
        decreases results.len() - a,
    {
        let mut c: u64 = 0;
        let mut b: usize = 0;
        while b < results.len()
            invariant
                a < results.len(),
                b <= results.len(),
                results.len() <= u64::MAX,
                lowered.len() == results.len(),
                classes.len() == results.len(),
                ks.len() == results.len(),
                forall|k: int| 0 <= k < results.len() ==> ks[k] == (
                    #[trigger] seq![classes@[k]],
                    vstd::utf8::encode_utf8(lowered@[k]@).len(),
                    vstd::utf8::encode_utf8(lowered@[k]@),
                ),
                c == crate::app_list::count_below(ks, ks[a as int], b as int),
                c <= b,
            decreases results.len() - b,
        {
            if search_key_less(classes[b], &lowered[b], classes[a], &lowered[a]) {
                c = c + 1;
            }
            proof {
                assert(ks[b as int] == (seq![classes@[b as int]], vstd::utf8::encode_utf8(lowered@[b as int]@).len(), vstd::utf8::encode_utf8(lowered@[b as int]@)));
                assert(ks[a as int] == (seq![classes@[a as int]], vstd::utf8::encode_utf8(lowered@[a as int]@).len(), vstd::utf8::encode_utf8(lowered@[a as int]@)));
            }
            b = b + 1;
        }
        ranks_v.push(c);
        assert(crate::app_list::ranks(ks).take(a as int + 1) =~= ranks_v@);
        a = a + 1;
    }
    assert(ranks_v@ =~= crate::app_list::ranks(ks));
    let order = crate::order::stable_order_by_key(&ranks_v);
    proof { crate::order::law_stable_order(results.len() as nat, ranks_v@); }
    let mut out: Vec<SearchResult> = Vec::new();
    let mut j: usize = 0;
    while j < order.len()
        invariant
            j <= order.len(),
            rv == results@,
            order@ == search_ranking(rv, query@),
            crate::order::is_arrangement(order@, rv.len()),
            out.len() == j,
            forall|k: int| 0 <= k < j ==> #[trigger] result_model(out@[k]) == result_model(rv[order@[k] as int]),
        decreases order.len() - j,
    {
        let p = order[j];
        let c = copy_result(&results[p]);
        out.push(c);
        j = j + 1;
    }
    out
}

/// In a search ranking, a result whose lower-cased name is the lower-cased
/// query never comes after one whose name is not; and a result whose name
/// starts with the query (the query itself included) never comes after one
/// whose name does not start with it. A name that is only a beginning of the
/// query does not count as starting with it.
pub proof fn law_search_groups(rs: Seq<SearchResult>, query: Seq<char>)
    requires
        rs.len() <= usize::MAX,
        rs.len() <= u64::MAX,
    ensures
        forall|a: int, b: int| 0 <= a < b < rs.len() ==> {
            let q = vstd::utf8::encode_utf8(lower_text(query));
            let na = vstd::utf8::encode_utf8(lower_text(shown_name(rs[#[trigger] search_ranking(rs, query)[a] as int])));
            let nb = vstd::utf8::encode_utf8(lower_text(shown_name(rs[#[trigger] search_ranking(rs, query)[b] as int])));
            &&& (nb == q ==> na == q)
            &&& (q.is_prefix_of(nb) ==> q.is_prefix_of(na))
        },
{
    law_search_ranking(rs, query);
    let order = search_ranking(rs, query);
    assert forall|a: int, b: int| 0 <= a < b < rs.len() implies {
        let q = vstd::utf8::encode_utf8(lower_text(query));
        let na = vstd::utf8::encode_utf8(lower_text(shown_name(rs[#[trigger] order[a] as int])));
        let nb = vstd::utf8::encode_utf8(lower_text(shown_name(rs[#[trigger] order[b] as int])));
        &&& (nb == q ==> na == q)
        &&& (q.is_prefix_of(nb) ==> q.is_prefix_of(na))
    } by {
        let q = vstd::utf8::encode_utf8(lower_text(query));
        let na = vstd::utf8::encode_utf8(lower_text(shown_name(rs[order[a] as int])));
        let nb = vstd::utf8::encode_utf8(lower_text(shown_name(rs[order[b] as int])));
        let ka = search_key(rs[order[a] as int], query);
        let kb = search_key(rs[order[b] as int], query);
        assert(!crate::app_list::key_lt(kb, ka));
        let ca = match_class(na, q);
        let cb = match_class(nb, q);
        assert(ka.0 == seq![ca]);
        assert(kb.0 == seq![cb]);
        if cb < ca {
            assert(crate::app_list::bytes_lt(seq![cb], seq![ca]));
        }
        assert(cb >= ca);
        if na == q {
            assert(q.is_prefix_of(na));
        }
    }
}

/// A search ranking lists every result once; no result comes after one whose
/// key sorts above its own, and results with equal keys keep their order.
pub proof fn law_search_ranking(rs: Seq<SearchResult>, query: Seq<char>)
    requires
        rs.len() <= usize::MAX,
        rs.len() <= u64::MAX,
    ensures
        crate::order::is_arrangement(search_ranking(rs, query), rs.len()),
        forall|a: int, b: int| 0 <= a < b < rs.len() ==> {
            &&& !crate::app_list::key_lt(
                search_key(rs[#[trigger] search_ranking(rs, query)[b] as int], query),
                search_key(rs[#[trigger] search_ranking(rs, query)[a] as int], query),
            )
            &&& (search_key(rs[search_ranking(rs, query)[b] as int], query) == search_key(rs[search_ranking(rs, query)[a] as int], query)
                ==> search_ranking(rs, query)[a] < search_ranking(rs, query)[b])
        },
{
    let n = rs.len();
    let ks = search_keys(rs, query);
    let rk = crate::app_list::ranks(ks);
    let order = search_ranking(rs, query);
    crate::order::law_stable_order(n, rk);
    assert forall|a: int, b: int| 0 <= a < b < rs.len() implies {
        &&& !crate::app_list::key_lt(search_key(rs[#[trigger] order[b] as int], query), search_key(rs[#[trigger] order[a] as int], query))
        &&& (search_key(rs[order[b] as int], query) == search_key(rs[order[a] as int], query) ==> order[a] < order[b])
    } by {
        let oa = order[a] as int;
        let ob = order[b] as int;
        assert(crate::order::before(order[a], order[b], rk));
        assert(ks[oa] == search_key(rs[oa], query) && ks[ob] == search_key(rs[ob], query));
        if crate::app_list::key_lt(ks[ob], ks[oa]) {
            crate::app_list::lemma_count_below_strict(ks, ob, oa, n as int);
            crate::app_list::lemma_count_below_bound(ks, ks[oa], n as int);
            crate::app_list::lemma_count_below_bound(ks, ks[ob], n as int);
            assert(rk[oa] == crate::app_list::count_below(ks, ks[oa], n as int) as u64);
            assert(rk[ob] == crate::app_list::count_below(ks, ks[ob], n as int) as u64);
        }
    }
}

/// The store's `{appid}` answer, when it reports success.
pub open spec fn store_data(root: JsonValue, appid: Seq<char>) -> Option<JsonValue> {
    let a = json_get(root, appid);
    if as_flag(at(a, "success"@)) == Some(true) { at(a, "data"@) } else { None }
}

pub open spec fn whole_texts(vs: Seq<JsonValue>) -> Seq<Seq<char>>
    decreases vs.len(),
{
    if vs.len() == 0 {
        Seq::empty()
    } else {
        let rest = whole_texts(vs.drop_last());
        match as_whole(Some(vs.last())) {
            Some(n) => rest.push(crate::text::decimal(n as nat)),
            None => rest,
        }
    }
}

/// The DLC ids a store answer lists under `data.dlc` (whole numbers only).
pub open spec fn store_dlcs_of(root: JsonValue, appid: Seq<char>) -> Seq<Seq<char>> {
    match at(store_data(root, appid), "dlc"@) {
        Some(JsonValue::Array(vs)) => whole_texts(vs@),
        _ => Seq::empty(),
    }
}

pub fn store_dlc_ids(root: &JsonValue, appid: &str) -> (r: Vec<String>)
    ensures
        strings_view(r@) == store_dlcs_of(*root, appid@),
{
    let mut out: Vec<String> = Vec::new();
    assert(strings_view(out@) =~= Seq::<Seq<char>>::empty());
    let a = crate::json::get(root, appid);
    if flag_of(get_in(a, "success")) != Some(true) {
        return out;
    }
    match get_in(get_in(a, "data"), "dlc") {
        Some(JsonValue::Array(vs)) => {
            let mut i: usize = 0;
            while i < vs.len()
                invariant
                    i <= vs.len(),
                    strings_view(out@) == whole_texts(vs@.take(i as int)),
                decreases vs.len() - i,
            {
                proof {
                    assert(vs@.take(i as int + 1).drop_last() =~= vs@.take(i as int));
                    assert(vs@.take(i as int + 1).last() == vs@[i as int]);
                }
                match whole_of(Some(&vs[i])) {
                    Some(n) => {
                        let t = crate::text::decimal_string(n);
                        proof { crate::text::lemma_strings_view_push(out@, t); }
                        out.push(t);
                    },
                    None => {},
                }
                i = i + 1;
            }
            assert(vs@.take(vs.len() as int) =~= vs@);
        },
        _ => {},
    }
    out
}

/// The game a DLC belongs to, by the store: when its type is `dlc`, the
/// `fullgame.appid` text.
pub open spec fn store_parent_of(root: JsonValue, appid: Seq<char>) -> Option<Seq<char>> {
    let d = store_data(root, appid);
    if as_text(at(d, "type"@)) == Some("dlc"@) { as_text(at(at(d, "fullgame"@), "appid"@)) } else { None }
}

pub fn store_parent(root: &JsonValue, appid: &str) -> (r: Option<String>)
    ensures
        opt_text(r) == store_parent_of(*root, appid@),
{
    let a = crate::json::get(root, appid);
    if flag_of(get_in(a, "success")) != Some(true) {
        return None;
    }
    let d = get_in(a, "data");
    let is_dlc = match text_of(get_in(d, "type")) {
        Some(t) => text_eq(&t, "dlc"),
        None => false,
    };
    if is_dlc {
        text_of(get_in(get_in(d, "fullgame"), "appid"))
    } else {
        None
    }
}

pub open spec fn texts_in(vs: Seq<JsonValue>) -> Seq<Seq<char>>
    decreases vs.len(),
{
    if vs.len() == 0 {
        Seq::empty()
    } else {
        let rest = texts_in(vs.drop_last());
        match vs.last() {
            JsonValue::Str(s) => rest.push(s@),
            _ => rest,
        }
    }
}

pub open spec fn descriptions_in(vs: Seq<JsonValue>) -> Seq<Seq<char>>
    decreases vs.len(),
{
    if vs.len() == 0 {
        Seq::empty()
    } else {
        let rest = descriptions_in(vs.drop_last());
        match as_text(json_get(vs.last(), "description"@)) {
            Some(s) => rest.push(s),
            None => rest,
        }
    }
}

pub open spec fn array_texts(v: Option<JsonValue>) -> Seq<Seq<char>> {
    match v {
        Some(JsonValue::Array(vs)) => texts_in(vs@),
        _ => Seq::empty(),
    }
}

pub open spec fn text_or_empty(v: Option<Seq<char>>) -> Seq<char> {
    match v {
        Some(t) => t,
        None => Seq::empty(),
    }
}

pub struct GameDetailsModel {
    pub app_id: Seq<char>,
    pub name: Seq<char>,
    pub short_description: Seq<char>,
    pub developers: Seq<Seq<char>>,
    pub publishers: Seq<Seq<char>>,
    pub genres: Seq<Seq<char>>,
    pub release_date: Seq<char>,
    pub metacritic_score: Option<u32>,
    pub recommendations: Option<u64>,
    pub platforms: (bool, bool, bool),
    pub required_age: u8,
}

impl View for GameDetails {
    type V = GameDetailsModel;

    open spec fn view(&self) -> GameDetailsModel {
        GameDetailsModel {
            app_id: self.app_id@,
            name: self.name@,
            short_description: self.short_description@,
            developers: strings_view(self.developers@),
            publishers: strings_view(self.publishers@),
            genres: strings_view(self.genres@),
            release_date: self.release_date@,
            metacritic_score: self.metacritic_score,
            recommendations: self.recommendations,
            platforms: self.platforms,
            required_age: self.required_age,
        }
    }
}

/// The store details of a game: `{appid}.data`'s fields, each missing one
/// empty, zero or false; a score or age wider than its field keeps its low
/// bits. `None` when the answer has no data.
pub open spec fn game_details_of(root: JsonValue, appid: Seq<char>) -> Option<GameDetailsModel> {
    match at(json_get(root, appid), "data"@) {
        None => None,
        Some(data) => {
            let d = Some(data);
            Some(GameDetailsModel {
                app_id: appid,
                name: text_or_empty(as_text(at(d, "name"@))),
                short_description: text_or_empty(as_text(at(d, "short_description"@))),
                developers: array_texts(at(d, "developers"@)),
                publishers: array_texts(at(d, "publishers"@)),
                genres: match at(d, "genres"@) {
                    Some(JsonValue::Array(vs)) => descriptions_in(vs@),
                    _ => Seq::empty(),
                },
                release_date: text_or_empty(as_text(at(at(d, "release_date"@), "date"@))),
                metacritic_score: match as_whole(at(at(d, "metacritic"@), "score"@)) {
                    Some(n) => Some(n as u32),
                    None => None,
                },
                recommendations: as_whole(at(at(d, "recommendations"@), "total"@)),
                platforms: (
                    as_flag(at(at(d, "platforms"@), "windows"@)) == Some(true),
                    as_flag(at(at(d, "platforms"@), "mac"@)) == Some(true),
                    as_flag(at(at(d, "platforms"@), "linux"@)) == Some(true),
                ),
                required_age: match as_whole(at(d, "required_age"@)) {
                    Some(n) => n as u8,
                    None => 0u8,
                },
            })
        },
    }
}

fn texts_of_array(v: Option<&JsonValue>) -> (r: Vec<String>)
    ensures
        strings_view(r@) == array_texts(match v {
            Some(x) => Some(*x),
            None => None,
        }),
{
    let mut out: Vec<String> = Vec::new();
    assert(strings_view(out@) =~= Seq::<Seq<char>>::empty());
    match v {
        Some(JsonValue::Array(vs)) => {
            let mut i: usize = 0;
            while i < vs.len()
                invariant
                    i <= vs.len(),
                    strings_view(out@) == texts_in(vs@.take(i as int)),
                decreases vs.len() - i,
            {
                proof {
                    assert(vs@.take(i as int + 1).drop_last() =~= vs@.take(i as int));
                    assert(vs@.take(i as int + 1).last() == vs@[i as int]);
                }
                match &vs[i] {
                    JsonValue::Str(s) => {
                        let t = s.clone();
                        proof { crate::text::lemma_strings_view_push(out@, t); }
                        out.push(t);
                    },
                    _ => {},
                }
                i = i + 1;
            }
            assert(vs@.take(vs.len() as int) =~= vs@);
        },
        _ => {},
    }
    out
}

fn descriptions_of(vs: &Vec<JsonValue>) -> (r: Vec<String>)
    ensures
        strings_view(r@) == descriptions_in(vs@),
{
    let mut out: Vec<String> = Vec::new();
    let mut i: usize = 0;
    while i < vs.len()
        invariant
            i <= vs.len(),
            strings_view(out@) == descriptions_in(vs@.take(i as int)),
        decreases vs.len() - i,
    {
        proof {
            assert(vs@.take(i as int + 1).drop_last() =~= vs@.take(i as int));
            assert(vs@.take(i as int + 1).last() == vs@[i as int]);
        }
        match text_of(crate::json::get(&vs[i], "description")) {
            Some(t) => {
                proof { crate::text::lemma_strings_view_push(out@, t); }
                out.push(t);
            },
            None => {},
        }
        i = i + 1;
    }
    assert(vs@.take(vs.len() as int) =~= vs@);
    out
}

fn text_or_new(t: Option<String>) -> (r: String)
    ensures
        r@ == text_or_empty(opt_text(t)),
{
    match t {
        Some(s) => s,
        None => String::new(),
    }
}

/// The store details of a game, or `None` when the answer has no data.
pub fn game_details(root: &JsonValue, appid: &str) -> (r: Option<GameDetails>)
    ensures
        match game_details_of(*root, appid@) {
            Some(m) => r matches Some(g) && g@ == m,
            None => r is None,
        },
{
    let d = get_in(crate::json::get(root, appid), "data");
    if d.is_none() {
        return None;
    }
    let genres = match get_in(d, "genres") {
        Some(JsonValue::Array(vs)) => descriptions_of(vs),
        _ => {
            let e: Vec<String> = Vec::new();
            assert(strings_view(e@) =~= Seq::<Seq<char>>::empty());
            e
        },
    };
    let metacritic_score = match whole_of(get_in(get_in(d, "metacritic"), "score")) {
        Some(n) => Some(n as u32),
        None => None,
    };
    let required_age = match whole_of(get_in(d, "required_age")) {
        Some(n) => n as u8,
        None => 0u8,
    };
    let g = GameDetails {
        app_id: appid.to_string(),
        name: text_or_new(text_of(get_in(d, "name"))),
        short_description: text_or_new(text_of(get_in(d, "short_description"))),
        developers: texts_of_array(get_in(d, "developers")),
        publishers: texts_of_array(get_in(d, "publishers")),
        genres,
        release_date: text_or_new(text_of(get_in(get_in(d, "release_date"), "date"))),
        metacritic_score,
        recommendations: whole_of(get_in(get_in(d, "recommendations"), "total")),
        platforms: (
            flag_of(get_in(get_in(d, "platforms"), "windows")) == Some(true),
            flag_of(get_in(get_in(d, "platforms"), "mac")) == Some(true),
            flag_of(get_in(get_in(d, "platforms"), "linux")) == Some(true),
        ),
        required_age,
    };
    Some(g)
}

/// The manifest ids the SteamCMD information knows, by depot.
pub fn public_gids(info: &SteamCmdInfo) -> (r: Vec<(String, String)>)
    ensures
        crate::app_list::pairs_view(r@) == known_gids(depot_entries_view(info.depots@)),
{
    let ghost dv = depot_entries_view(info.depots@);
    let mut out: Vec<(String, String)> = Vec::new();
    let mut i: usize = 0;
    while i < info.depots.len()
        invariant
            i <= info.depots.len(),
            dv == depot_entries_view(info.depots@),
            crate::app_list::pairs_view(out@) == known_gids(dv.take(i as int)),
        decreases info.depots.len() - i,
    {
        proof {
            assert(dv.take(i as int + 1).drop_last() =~= dv.take(i as int));
            assert(dv.take(i as int + 1).last() == dv[i as int]);
        }
        match &info.depots[i].1.gid {
            Some(g) => {
                let ghost before = crate::app_list::pairs_view(out@);
                out.push((info.depots[i].0.clone(), g.clone()));
                assert(crate::app_list::pairs_view(out@) =~= before.push((info.depots@[i as int].0@, g@)));
            },
            None => {},
        }
        i = i + 1;
    }
    assert(dv.take(info.depots.len() as int) =~= dv);
    out
}

/// The depots with a known manifest id, with that id.
pub open spec fn known_gids(ds: Seq<(Seq<char>, DepotInfoModel)>) -> Seq<(Seq<char>, Seq<char>)>
    decreases ds.len(),
{
    if ds.len() == 0 {
        Seq::empty()
    } else {
        let rest = known_gids(ds.drop_last());
        match ds.last().1.gid {
            Some(g) => rest.push((ds.last().0, g)),
            None => rest,
        }
    }
}

/// A download link with the API key added as a query parameter.
pub fn with_api_key(url: &str, api_key: &str) -> (r: String)
    ensures
        r@ == url@ + (if url@.contains('?') { "&api_key="@ } else { "?api_key="@ }) + api_key@,
{
    let cs = chars_of(url);
    let mut has_q = false;
    let mut i: usize = 0;
    while i < cs.len()
        invariant
            i <= cs.len(),
            cs@ == url@,
            has_q == exists|j: int| 0 <= j < i && cs@[j] == '?',
        decreases cs.len() - i,
    {
        if cs[i] == '?' {
            has_q = true;
        }
        i = i + 1;
    }
    assert(has_q == url@.contains('?'));
    if has_q {
        crate::text::concat3(url, "&api_key=", api_key)
    } else {
        crate::text::concat3(url, "?api_key=", api_key)
    }
}

/// Where the manifest metadata of an app is asked for.
pub fn manifest_meta_url(appid: &str, api_key: &str) -> (r: String)
    ensures
        r@ == "https://manifest.morrenus.xyz/api/v1/manifest/"@ + appid@ + "?api_key="@ + api_key@,
{
    let a = crate::text::concat3("https://manifest.morrenus.xyz/api/v1/manifest/", appid, "?api_key=");
    crate::text::concat(&a, api_key)
}

/// What one archive file adds to the manifest ids: a `.manifest` file whose
/// stem has a `_` records the part after the last `_` under the part before.
pub open spec fn gid_step(t: Seq<(Seq<char>, Seq<char>)>, e: crate::downloader::EntryModel) -> Seq<(Seq<char>, Seq<char>)> {
    match e {
        Some((Some(n), _, _)) => if crate::text::has_suffix(n, ".manifest"@) {
            let st = crate::app_list::file_stem_of(crate::commands::direct_download::base_name(n));
            match crate::profiles::last_index_of(st, '_') {
                Some(p) => crate::vdf_injector::with_key(t, st.take(p), st.skip(p + 1)),
                None => t,
            }
        } else {
            t
        },
        _ => t,
    }
}

pub open spec fn gids_of_entries(es: Seq<crate::downloader::EntryModel>) -> Seq<(Seq<char>, Seq<char>)>
    decreases es.len(),
{
    if es.len() == 0 {
        Seq::empty()
    } else {
        gid_step(gids_of_entries(es.drop_last()), es.last())
    }
}

/// The manifest ids, by depot, that the manifest files of a repository
/// archive name; none when the bytes are no archive.
pub fn extract_gids_from_zip(bytes: Vec<u8>) -> (r: Vec<(String, String)>)
    ensures
        crate::app_list::pairs_view(r@) == match crate::downloader::zip_open(bytes@) {
            Some(es) => gids_of_entries(es),
            None => Seq::empty(),
        },
{
    let ghost b = bytes@;
    let mut out: Vec<(String, String)> = Vec::new();
    assert(crate::app_list::pairs_view(out@) =~= Seq::<(Seq<char>, Seq<char>)>::empty());
    let mut a = match crate::downloader::open_zip(bytes) {
        Some(a) => a,
        None => return out,
    };
    let ghost es = crate::downloader::zip_entries(a);
    let n = crate::downloader::zip_len(&a);
    let mut i: usize = 0;
    while i < n
        invariant
            i <= n,
            n == es.len(),
            crate::downloader::zip_entries(a) == es,
            es == crate::downloader::zip_open(b)->0,
            crate::app_list::pairs_view(out@) == gids_of_entries(es.take(i as int)),
        decreases n - i,
    {
        proof {
            assert(es.take(i as int + 1).drop_last() =~= es.take(i as int));
            assert(es.take(i as int + 1).last() == es[i as int]);
        }
        match crate::downloader::zip_entry(&mut a, i) {
            Some((Some(name), _, _)) => {
                if crate::text::ends_with_str(&name, ".manifest") {
                    let base = crate::commands::direct_download::base_name_of(&name);
                    let st = crate::app_list::file_stem(&base);
                    match crate::profiles::last_position(&st, '_') {
                        Some(p) => {
                            let cs = chars_of(&st);
                            proof { crate::profiles::lemma_last_index_of_bounds(st@, '_'); }
                            assert(cs@ == st@);
                            let m = cs.len();
                            assert(p < m);
                            let depot = string_of(&crate::profiles::slice_chars(&cs, 0, p));
                            let gid = string_of(&crate::profiles::slice_chars(&cs, p + 1, m));
                            assert(depot@ =~= st@.take(p as int));
                            assert(gid@ =~= st@.skip(p + 1));
                            crate::vdf_injector::store_key(&mut out, depot, gid);
                        },
                        None => {},
                    }
                }
            },
            _ => {},
        }
        i = i + 1;
    }
    assert(es.take(n as int) =~= es);
    out
}

} // verus!
