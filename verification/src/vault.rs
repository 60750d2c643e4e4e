//! The vault: a folder per app id holding its Lua script, a cached archive and
//! manifest files, with the rules that say what is there and what is fresh.
use vstd::prelude::*;
use crate::paths::PathText;
use crate::text::{concat, concat3, decimal, decimal_string, ends_with_str, has_prefix, has_suffix,
    starts_with_str, strings_view};

verus! {

/// A game found in the vault.
pub struct VaultGame {
    pub app_id: String,
    pub name: String,
    /// Display size; not computed.
    pub size_gb: String,
    /// Seconds since the Unix epoch of the folder's last change.
    pub timestamp: i64,
}

/// What the file system said of one path.
pub struct FileStatus {
    pub path: PathText,
    pub present: bool,
    pub is_dir: bool,
    /// Seconds since the last change, zero when it lies in the future; `None`
    /// when the time could not be read.
    pub age_secs: Option<u64>,
}

pub struct VaultManager {
    pub base_path: PathText,
}

pub open spec fn storage_dir(base: Seq<Seq<char>>, appid: Seq<char>) -> Seq<Seq<char>> {
    base.push(appid)
}

pub open spec fn lua_path(base: Seq<Seq<char>>, appid: Seq<char>) -> Seq<Seq<char>> {
    base.push(appid).push(appid + ".lua"@)
}

pub open spec fn zip_path(base: Seq<Seq<char>>, appid: Seq<char>) -> Seq<Seq<char>> {
    base.push(appid).push(appid + ".zip"@)
}

pub open spec fn failure_marker(base: Seq<Seq<char>>, appid: Seq<char>) -> Seq<Seq<char>> {
    base.push(appid).push(".download_failed"@)
}

/// A failure marker counts: it is there and younger than the cool-down.
pub open spec fn recent_failure(present: bool, age_secs: Option<u64>, cooldown_minutes: int) -> bool {
    present && match age_secs {
        Some(a) => a < cooldown_minutes * 60,
        None => false,
    }
}

/// A failure marked less than a minute ago holds off a new download for any
/// cool-down of a minute or more; once the marker is cleared, nothing does.
pub proof fn law_failure_marker(age_secs: u64, cooldown_minutes: int)
    requires
        age_secs < 60,
        cooldown_minutes >= 1,
    ensures
        recent_failure(true, Some(age_secs), cooldown_minutes),
        !recent_failure(false, Some(age_secs), cooldown_minutes),
        !recent_failure(false, None, cooldown_minutes),
{
    assert(cooldown_minutes * 60 >= 60) by (nonlinear_arith)
        requires cooldown_minutes >= 1;
}

/// Once every expected manifest file is stored, the vault check finds none
/// missing, so it reports the vault valid.
pub proof fn law_all_stored(keys: Seq<Seq<char>>, present: Seq<bool>)
    requires
        keys.len() <= present.len(),
        forall|i: int| 0 <= i < present.len() ==> #[trigger] present[i],
    ensures
        missing_depots(keys, present) == Seq::<Seq<char>>::empty(),
    decreases keys.len(),
{
    if keys.len() > 0 {
        law_all_stored(keys.drop_last(), present);
        assert(present[keys.len() - 1]);
    }
}

/// A manifest stored where `get_manifest_path` puts it, for a depot at a
/// manifest id, is the very file that `expected_manifest_paths` names when
/// that depot is expected at that id; and with it present, `verify_manifests`
/// finds nothing missing.
pub proof fn law_store_then_verify(base: Seq<Seq<char>>, appid: Seq<char>, depot_id: u32, gid: u64,
    expected: Seq<(String, String)>)
    requires
        expected.len() == 1,
        expected[0].0@ == decimal(depot_id as nat),
        expected[0].1@ == decimal(gid as nat),
    ensures
        storage_dir(base, appid).push(manifest_name(decimal(depot_id as nat), decimal(gid as nat)))
            == storage_dir(base, appid).push(manifest_name(expected[0].0@, expected[0].1@)),
        missing_depots(depot_keys(expected), seq![true]) == Seq::<Seq<char>>::empty(),
{
    law_all_stored(depot_keys(expected), seq![true]);
}

/// `{depot}_{gid}.manifest`.
pub open spec fn manifest_name(depot: Seq<char>, gid: Seq<char>) -> Seq<char> {
    depot + "_"@ + gid + ".manifest"@
}

/// Fresh: present, and younger than the limit when its age is known.
pub open spec fn fresh(present: bool, age_secs: Option<u64>, limit_secs: int) -> bool {
    present && match age_secs {
        Some(a) => a < limit_secs,
        None => true,
    }
}

/// The depots whose manifest file is not present, in order.
pub open spec fn missing_depots(keys: Seq<Seq<char>>, present: Seq<bool>) -> Seq<Seq<char>>
    decreases keys.len(),
{
    if keys.len() == 0 {
        Seq::empty()
    } else {
        let rest = missing_depots(keys.drop_last(), present);
        if present[keys.len() - 1] {
            rest
        } else {
            rest.push(keys.last())
        }
    }
}

/// A manifest file of one of the depots: `.manifest` at the end and
/// `{depot}_` at the start.
pub open spec fn manifest_of_some(file_name: Seq<char>, depots: Seq<Seq<char>>) -> bool {
    has_suffix(file_name, ".manifest"@) && exists|i: int|
        0 <= i < depots.len() && #[trigger] has_prefix(file_name, depots[i] + "_"@)
}

pub fn vault_dir_in(exe_dir: Option<&str>) -> (r: PathText)
    ensures
        r@ == match exe_dir {
            Some(d) => seq![d@, "Vault"@],
            None => seq!["Vault"@],
        },
{
    match exe_dir {
        Some(d) => PathText::new(d).join("Vault"),
        None => PathText::new("Vault"),
    }
}

impl VaultManager {
    /// The vault in the `Vault` folder next to the executable, or in the
    /// working directory when that folder is unknown.
    pub fn new_local(exe_dir: Option<&str>) -> (r: VaultManager)
        ensures
            r.base_path@ == match exe_dir {
                Some(d) => seq![d@, "Vault"@],
                None => seq!["Vault"@],
            },
    {
        VaultManager { base_path: vault_dir_in(exe_dir) }
    }

    pub fn get_storage_dir(&self, appid: &str) -> (r: PathText)
        ensures
            r@ == storage_dir(self.base_path@, appid@),
    {
        self.base_path.join(appid)
    }

    pub fn get_base_path(&self) -> (r: &PathText)
        ensures
            r@ == self.base_path@,
    {
        &self.base_path
    }

    pub fn get_lua_path(&self, appid: &str) -> (r: PathText)
        ensures
            r@ == lua_path(self.base_path@, appid@),
    {
        let name = concat(appid, ".lua");
        self.base_path.join(appid).join_string(name)
    }

    pub fn get_zip_path(&self, appid: &str) -> (r: PathText)
        ensures
            r@ == zip_path(self.base_path@, appid@),
    {
        let name = concat(appid, ".zip");
        self.base_path.join(appid).join_string(name)
    }

    pub fn get_failure_marker_path(&self, appid: &str) -> (r: PathText)
        ensures
            r@ == failure_marker(self.base_path@, appid@),
    {
        self.base_path.join(appid).join(".download_failed")
    }

    /// Where a manifest of a depot, at a given manifest id, is stored.
    pub fn get_manifest_path(&self, appid: &str, depot_id: u32, manifest_gid: u64) -> (r: PathText)
        ensures
            r@ == storage_dir(self.base_path@, appid@).push(
                manifest_name(decimal(depot_id as nat), decimal(manifest_gid as nat)),
            ),
    {
        let name = manifest_file_name(&decimal_string(depot_id as u64), &decimal_string(manifest_gid));
        self.base_path.join(appid).join_string(name)
    }

    /// A Lua script is stored for the app.
    pub fn lua_exists(&self, appid: &str, lua: &FileStatus) -> (r: bool)
        requires
            lua.path@ == lua_path(self.base_path@, appid@),
        ensures
            r == lua.present,
    {
        lua.present
    }

    /// Fresh: the file is there and changed less than `max_age_days` days ago;
    /// a file whose age cannot be read counts as fresh.
    pub fn check_freshness(&self, status: &FileStatus, max_age_days: u64) -> (r: bool)
        requires
            max_age_days * 86400 <= u64::MAX,
        ensures
            r == fresh(status.present, status.age_secs, max_age_days * 86400),
    {
        if !status.present {
            return false;
        }
        match status.age_secs {
            Some(a) => a < max_age_days * 86400,
            None => true,
        }
    }

    /// The stored Lua script is fresh.
    pub fn is_fresh(&self, appid: &str, lua: &FileStatus, max_age_days: u64) -> (r: bool)
        requires
            lua.path@ == lua_path(self.base_path@, appid@),
            max_age_days * 86400 <= u64::MAX,
        ensures
            r == fresh(lua.present, lua.age_secs, max_age_days * 86400),
    {
        self.check_freshness(lua, max_age_days)
    }

    /// The cached archive is fresh.
    pub fn is_zip_fresh(&self, appid: &str, zip: &FileStatus, max_age_days: u64) -> (r: bool)
        requires
            zip.path@ == zip_path(self.base_path@, appid@),
            max_age_days * 86400 <= u64::MAX,
        ensures
            r == fresh(zip.present, zip.age_secs, max_age_days * 86400),
    {
        self.check_freshness(zip, max_age_days)
    }

    /// The app has a folder in the vault.
    pub fn has_manifests(&self, appid: &str, dir: &FileStatus) -> (r: bool)
        requires
            dir.path@ == storage_dir(self.base_path@, appid@),
        ensures
            r == (dir.present && dir.is_dir),
    {
        dir.present && dir.is_dir
    }

    /// A failure marker younger than the cool-down exists; a marker whose age
    /// cannot be read is ignored.
    pub fn is_failed_recently(&self, appid: &str, marker: &FileStatus, cooldown_minutes: u64) -> (r: bool)
        requires
            marker.path@ == failure_marker(self.base_path@, appid@),
            cooldown_minutes * 60 <= u64::MAX,
        ensures
            r == recent_failure(marker.present, marker.age_secs, cooldown_minutes as int),
    {
        if !marker.present {
            return false;
        }
        match marker.age_secs {
            Some(a) => a < cooldown_minutes * 60,
            None => false,
        }
    }

    /// The files that `verify_manifests` looks for, one per expected depot, in
    /// the same order.
    pub fn expected_manifest_paths(&self, appid: &str, expected_gids: &Vec<(String, String)>) -> (r: Vec<PathText>)
        ensures
            r.len() == expected_gids.len(),
            forall|i: int| 0 <= i < r.len() ==> #[trigger] r@[i]@ == storage_dir(self.base_path@, appid@).push(
                manifest_name(expected_gids@[i].0@, expected_gids@[i].1@),
            ),
    {
        let dir = self.get_storage_dir(appid);
        let mut r: Vec<PathText> = Vec::new();
        let mut i: usize = 0;
        while i < expected_gids.len()
            invariant
                i <= expected_gids.len(),
                r.len() == i,
                dir@ == storage_dir(self.base_path@, appid@),
                forall|k: int| 0 <= k < i ==> #[trigger] r@[k]@ == storage_dir(self.base_path@, appid@).push(
                    manifest_name(expected_gids@[k].0@, expected_gids@[k].1@),
                ),
            decreases expected_gids.len() - i,
        {
            let name = manifest_file_name(&expected_gids[i].0, &expected_gids[i].1);
            r.push(dir.join_string(name));
            i = i + 1;
        }
        r
    }

    /// Whether the stored manifests match the expected manifest ids: the depots
    /// whose expected file is missing, all of them when the app has no folder.
    /// `present[i]` tells whether the `i`-th path of `expected_manifest_paths`
    /// exists.
    pub fn verify_manifests(
        &self,
        appid: &str,
        expected_gids: &Vec<(String, String)>,
        dir: &FileStatus,
        present: &Vec<bool>,
    ) -> (r: (bool, Vec<String>))
        requires
            dir.path@ == storage_dir(self.base_path@, appid@),
            present.len() == expected_gids.len(),
        ensures
            !dir.present ==> !r.0 && strings_view(r.1@) == depot_keys(expected_gids@),
            dir.present ==> strings_view(r.1@) == missing_depots(depot_keys(expected_gids@), present@)
                && r.0 == (r.1.len() == 0),
    {
        let mut out: Vec<String> = Vec::new();
        let mut i: usize = 0;
        while i < expected_gids.len()
            invariant
                i <= expected_gids.len(),
                present.len() == expected_gids.len(),
                dir.present ==> strings_view(out@) == missing_depots(depot_keys(expected_gids@).take(i as int), present@),
                !dir.present ==> strings_view(out@) == depot_keys(expected_gids@).take(i as int),
            decreases expected_gids.len() - i,
        {
            let ghost keys = depot_keys(expected_gids@);
            proof {
                assert(keys.take(i as int + 1).drop_last() =~= keys.take(i as int));
                assert(keys.take(i as int + 1) =~= keys.take(i as int).push(keys[i as int]));
            }
            if !dir.present || !present[i] {
                let k = expected_gids[i].0.clone();
                proof { crate::text::lemma_strings_view_push(out@, k); }
                out.push(k);
            }
            i = i + 1;
        }
        proof {
            assert(depot_keys(expected_gids@).take(expected_gids.len() as int) =~= depot_keys(expected_gids@));
        }
        if !dir.present {
            return (false, out);
        }
        let valid = out.len() == 0;
        (valid, out)
    }

    /// An entry of the vault folder that counts as a stored game, with how it
    /// is listed: a folder that holds a Lua script or manifests.
    pub fn vault_entry(
        &self,
        appid: &str,
        is_dir: bool,
        lua_present: bool,
        has_manifests: bool,
        timestamp: i64,
    ) -> (r: Option<VaultGame>)
        ensures
            match r {
                Some(g) => is_dir && (lua_present || has_manifests) && g.app_id@ == appid@
                    && g.name@ == "AppID "@ + appid@ && g.size_gb@ == "0.0 GB"@ && g.timestamp == timestamp,
                None => !(is_dir && (lua_present || has_manifests)),
            },
    {
        if is_dir && (lua_present || has_manifests) {
            Some(VaultGame {
                app_id: appid.to_string(),
                name: concat("AppID ", appid),
                size_gb: "0.0 GB".to_string(),
                timestamp,
            })
        } else {
            None
        }
    }
}

/// The depot ids of an expected-manifest list.
pub open spec fn depot_keys(es: Seq<(String, String)>) -> Seq<Seq<char>> {
    es.map_values(|e: (String, String)| e.0@)
}

/// `{depot}_{gid}.manifest`.
pub fn manifest_file_name(depot_id: &str, gid: &str) -> (r: String)
    ensures
        r@ == manifest_name(depot_id@, gid@),
{
    let mut r = concat3(depot_id, "_", gid);
    r.push_str(".manifest");
    r
}

/// Whether a file of an app's vault folder is a manifest of one of the depots,
/// which partial invalidation removes.
pub fn is_manifest_of_any(file_name: &str, depot_ids: &Vec<String>) -> (r: bool)
    ensures
        r == manifest_of_some(file_name@, strings_view(depot_ids@)),
{
    let is_manifest = ends_with_str(file_name, ".manifest");
    if !is_manifest {
        return false;
    }
    let mut i: usize = 0;
    while i < depot_ids.len()
        invariant
            i <= depot_ids.len(),
            is_manifest == has_suffix(file_name@, ".manifest"@),
            is_manifest,
            forall|k: int| 0 <= k < i ==> !#[trigger] has_prefix(file_name@, strings_view(depot_ids@)[k] + "_"@),
        decreases depot_ids.len() - i,
    {
        let prefix = concat(&depot_ids[i], "_");
        if starts_with_str(file_name, &prefix) {
            assert(strings_view(depot_ids@)[i as int] == depot_ids@[i as int]@);
            assert(has_prefix(file_name@, strings_view(depot_ids@)[i as int] + "_"@));
            assert(has_suffix(file_name@, ".manifest"@));
            return true;
        }
        i = i + 1;
    }
    false
}

} // verus!
