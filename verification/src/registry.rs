//! The record of which games were deployed, from where, and when.
use vstd::prelude::*;
use crate::paths::PathText;

verus! {

/// How a game was installed.
#[derive(Debug, Clone, Copy, PartialEq, Eq, Structural)]
pub enum InstallSource {
    SteamCMD,
    DirectDownload,
}

/// One deployed game.
#[derive(Debug, Clone)]
pub struct InstallRecord {
    pub appid: String,
    pub name: String,
    pub source: InstallSource,
    /// Relative to steamapps/common.
    pub install_dir: String,
    /// Seconds since the Unix epoch.
    pub timestamp: u64,
}

pub struct RecordModel {
    pub appid: Seq<char>,
    pub name: Seq<char>,
    pub source: InstallSource,
    pub install_dir: Seq<char>,
    pub timestamp: u64,
}

impl View for InstallRecord {
    type V = RecordModel;

    open spec fn view(&self) -> RecordModel {
        RecordModel {
            appid: self.appid@,
            name: self.name@,
            source: self.source,
            install_dir: self.install_dir@,
            timestamp: self.timestamp,
        }
    }
}

/// The deployed games, one record per app id.
pub struct InstallRegistry {
    pub deployed_games: Vec<InstallRecord>,
}

pub open spec fn records_view(rs: Seq<InstallRecord>) -> Seq<RecordModel> {
    rs.map_values(|r: InstallRecord| r@)
}

/// The record stored under an app id (the last one, should there be several).
pub open spec fn lookup(rs: Seq<RecordModel>, appid: Seq<char>) -> Option<RecordModel>
    decreases rs.len(),
{
    if rs.len() == 0 {
        None
    } else if rs.last().appid == appid {
        Some(rs.last())
    } else {
        lookup(rs.drop_last(), appid)
    }
}

/// No app id occurs twice.
pub open spec fn distinct_appids(rs: Seq<RecordModel>) -> bool {
    forall|i: int, j: int| 0 <= i < j < rs.len() ==> #[trigger] rs[i].appid != #[trigger] rs[j].appid
}

proof fn lemma_distinct_drop_last(rs: Seq<RecordModel>)
    requires
        distinct_appids(rs),
        rs.len() > 0,
    ensures
        distinct_appids(rs.drop_last()),
{
    let pre = rs.drop_last();
    assert forall|a: int, b: int| 0 <= a < b < pre.len() implies #[trigger] pre[a].appid != #[trigger] pre[b].appid by {
        assert(pre[a] == rs[a] && pre[b] == rs[b]);
    }
}

proof fn lemma_lookup_found(rs: Seq<RecordModel>, i: int)
    requires
        distinct_appids(rs),
        0 <= i < rs.len(),
    ensures
        lookup(rs, rs[i].appid) == Some(rs[i]),
    decreases rs.len(),
{
    if i < rs.len() - 1 {
        assert(rs[i].appid != rs[rs.len() - 1].appid);
        let pre = rs.drop_last();
        lemma_distinct_drop_last(rs);
        assert(pre[i] == rs[i]);
        lemma_lookup_found(pre, i);
    }
}

proof fn lemma_lookup_absent(rs: Seq<RecordModel>, appid: Seq<char>)
    requires
        forall|j: int| 0 <= j < rs.len() ==> #[trigger] rs[j].appid != appid,
    ensures
        lookup(rs, appid) is None,
    decreases rs.len(),
{
    if rs.len() > 0 {
        let pre = rs.drop_last();
        assert forall|j: int| 0 <= j < pre.len() implies #[trigger] pre[j].appid != appid by {
            assert(pre[j] == rs[j]);
        }
        assert(rs[rs.len() - 1].appid != appid);
        lemma_lookup_absent(pre, appid);
    }
}

proof fn lemma_lookup_update(rs: Seq<RecordModel>, i: int, m: RecordModel, a: Seq<char>)
    requires
        distinct_appids(rs),
        0 <= i < rs.len(),
        m.appid == rs[i].appid,
    ensures
        lookup(rs.update(i, m), a) == (if a == m.appid { Some(m) } else { lookup(rs, a) }),
    decreases rs.len(),
{
    let rs2 = rs.update(i, m);
    if i == rs.len() - 1 {
        assert(rs2.drop_last() =~= rs.drop_last());
        if a != m.appid {
            assert(rs.last().appid == m.appid);
        }
    } else {
        let pre = rs.drop_last();
        lemma_distinct_drop_last(rs);
        assert(rs2.drop_last() =~= pre.update(i, m));
        assert(rs2.last() == rs.last());
        assert(rs[i].appid != rs[rs.len() - 1].appid);
        assert(pre[i] == rs[i]);
        lemma_lookup_update(pre, i, m, a);
        if a == rs.last().appid {
            assert(a != m.appid);
        }
    }
}

/// The position of the first record of an app id.
pub open spec fn appid_index(rs: Seq<RecordModel>, appid: Seq<char>) -> Option<int>
    decreases rs.len(),
{
    if rs.len() == 0 {
        None
    } else {
        match appid_index(rs.drop_last(), appid) {
            Some(i) => Some(i),
            None => if rs.last().appid == appid { Some(rs.len() - 1) } else { None },
        }
    }
}

/// The records once `m` is registered: it replaces the record of its app id,
/// or is appended.
pub open spec fn registered(rs: Seq<RecordModel>, m: RecordModel) -> Seq<RecordModel> {
    match appid_index(rs, m.appid) {
        Some(i) => rs.update(i, m),
        None => rs.push(m),
    }
}

proof fn lemma_appid_index(rs: Seq<RecordModel>, appid: Seq<char>, k: int)
    requires
        0 <= k <= rs.len(),
        forall|j: int| 0 <= j < k ==> #[trigger] rs[j].appid != appid,
        k < rs.len() ==> rs[k].appid == appid,
    ensures
        appid_index(rs, appid) == if k < rs.len() { Some(k) } else { None::<int> },
    decreases rs.len(),
{
    if rs.len() > 0 {
        let p = rs.drop_last();
        if k < rs.len() - 1 {
            assert(p[k] == rs[k]);
            lemma_appid_index(p, appid, k);
        } else {
            assert forall|j: int| 0 <= j < p.len() implies #[trigger] p[j].appid != appid by {
                assert(p[j] == rs[j]);
            }
            lemma_appid_index(p, appid, p.len() as int);
        }
    }
}

/// Registering a game makes its record the one registered, leaves every
/// other game's record as it was, and keeps one record per app id: the
/// source reported for a game is the one it was last registered with.
pub proof fn law_register_then_lookup(rs: Seq<RecordModel>, m: RecordModel)
    requires
        distinct_appids(rs),
    ensures
        distinct_appids(registered(rs, m)),
        lookup(registered(rs, m), m.appid) == Some(m),
        forall|a: Seq<char>| a != m.appid ==> #[trigger] lookup(registered(rs, m), a) == lookup(rs, a),
{
    match appid_index(rs, m.appid) {
        Some(i) => {
            lemma_appid_index_found(rs, m.appid);
            let rv = rs.update(i, m);
            assert(distinct_appids(rv)) by {
                assert forall|a: int, b: int| 0 <= a < b < rv.len() implies #[trigger] rv[a].appid != #[trigger] rv[b].appid by {
                    assert(rs[a].appid != rs[b].appid);
                }
            }
            lemma_lookup_update(rs, i, m, m.appid);
            assert forall|a: Seq<char>| a != m.appid implies #[trigger] lookup(registered(rs, m), a) == lookup(rs, a) by {
                lemma_lookup_update(rs, i, m, a);
            }
        },
        None => {
            lemma_appid_index_absent(rs, m.appid);
            let rv = rs.push(m);
            assert(rv.drop_last() =~= rs);
            assert(distinct_appids(rv)) by {
                assert forall|a: int, b: int| 0 <= a < b < rv.len() implies #[trigger] rv[a].appid != #[trigger] rv[b].appid by {
                    if b == rv.len() - 1 {
                        assert(rv[a] == rs[a]);
                    } else {
                        assert(rs[a].appid != rs[b].appid);
                    }
                }
            }
        },
    }
}

proof fn lemma_appid_index_found(rs: Seq<RecordModel>, appid: Seq<char>)
    requires
        appid_index(rs, appid) is Some,
    ensures
        0 <= appid_index(rs, appid)->0 < rs.len(),
        rs[appid_index(rs, appid)->0].appid == appid,
    decreases rs.len(),
{
    if rs.len() > 0 {
        let p = rs.drop_last();
        if appid_index(p, appid) is Some {
            lemma_appid_index_found(p, appid);
            assert(p[appid_index(p, appid)->0] == rs[appid_index(p, appid)->0]);
        }
    }
}

proof fn lemma_appid_index_absent(rs: Seq<RecordModel>, appid: Seq<char>)
    requires
        appid_index(rs, appid) is None,
    ensures
        forall|j: int| 0 <= j < rs.len() ==> #[trigger] rs[j].appid != appid,
    decreases rs.len(),
{
    if rs.len() > 0 {
        let p = rs.drop_last();
        lemma_appid_index_absent(p, appid);
        assert forall|j: int| 0 <= j < rs.len() implies #[trigger] rs[j].appid != appid by {
            if j < rs.len() - 1 {
                assert(p[j] == rs[j]);
            }
        }
    }
}

/// Seconds since the Unix epoch now (0 if the clock is before it).
#[verifier::external_body]
pub(crate) fn unix_time_secs() -> (t: u64)
{
    std::time::SystemTime::now().duration_since(std::time::UNIX_EPOCH).unwrap_or_default().as_secs()
}

impl InstallRegistry {
    /// Each app id occurs once.
    pub open spec fn wf(&self) -> bool {
        distinct_appids(records_view(self.deployed_games@))
    }

    /// An empty registry.
    pub fn new() -> (r: InstallRegistry)
        ensures
            r.deployed_games@.len() == 0,
            r.wf(),
            forall|a: Seq<char>| #[trigger] r.record_of(a) is None,
    {
        let r = InstallRegistry { deployed_games: Vec::new() };
        assert(records_view(r.deployed_games@) =~= Seq::<RecordModel>::empty());
        r
    }

    /// Where the registry is stored, relative to the working directory.
    pub fn get_path() -> (p: PathText)
        ensures
            p@ == seq!["core_data"@, "registry.json"@],
    {
        let p = PathText::new("core_data").join("registry.json");
        assert(p@ =~= seq!["core_data"@, "registry.json"@]);
        p
    }

    fn index_of(&self, appid: &str) -> (r: Option<usize>)
        ensures
            match r {
                Some(i) => i < self.deployed_games@.len() && self.deployed_games@[i as int].appid@ == appid@
                    && forall|j: int| 0 <= j < i ==> #[trigger] self.deployed_games@[j].appid@ != appid@,
                None => forall|j: int| 0 <= j < self.deployed_games@.len() ==> #[trigger] self.deployed_games@[j].appid@ != appid@,
            },
    {
        let mut i: usize = 0;
        while i < self.deployed_games.len()
            invariant
                i <= self.deployed_games@.len(),
                forall|j: int| 0 <= j < i ==> #[trigger] self.deployed_games@[j].appid@ != appid@,
            decreases self.deployed_games.len() - i,
        {
            if crate::text::text_eq(self.deployed_games[i].appid.as_str(), appid) {
                return Some(i);
            }
            i = i + 1;
        }
        None
    }

    /// The record of a game, as the registry holds it.
    pub open spec fn record_of(&self, appid: Seq<char>) -> Option<RecordModel> {
        lookup(records_view(self.deployed_games@), appid)
    }

    /// Records the game under `appid` with the given time, replacing an earlier record.
    pub fn register_at(&mut self, appid: String, name: String, source: InstallSource, install_dir: String, timestamp: u64)
        requires
            old(self).wf(),
        ensures
            final(self).wf(),
            records_view(final(self).deployed_games@) == registered(records_view(old(self).deployed_games@), RecordModel {
                appid: appid@, name: name@, source, install_dir: install_dir@, timestamp }),
            final(self).record_of(appid@) == Some(RecordModel {
                appid: appid@, name: name@, source, install_dir: install_dir@, timestamp }),
            forall|a: Seq<char>| a != appid@ ==> #[trigger] final(self).record_of(a) == old(self).record_of(a),
    {
        let ghost rv0 = records_view(self.deployed_games@);
        let ghost m = RecordModel { appid: appid@, name: name@, source, install_dir: install_dir@, timestamp };
        let idx = self.index_of(appid.as_str());
        proof {
            match idx {
                Some(i) => {
                    assert forall|j: int| 0 <= j < i implies #[trigger] rv0[j].appid != m.appid by {
                        assert(rv0[j] == self.deployed_games@[j]@);
                    }
                    assert(rv0[i as int] == self.deployed_games@[i as int]@);
                    lemma_appid_index(rv0, m.appid, i as int);
                },
                None => {
                    assert forall|j: int| 0 <= j < rv0.len() implies #[trigger] rv0[j].appid != m.appid by {
                        assert(rv0[j] == self.deployed_games@[j]@);
                    }
                    lemma_appid_index(rv0, m.appid, rv0.len() as int);
                },
            }
        }
        let rec = InstallRecord { appid, name, source, install_dir, timestamp };
        match idx {
            Some(i) => {
                self.deployed_games.set(i, rec);
                let ghost rv = records_view(self.deployed_games@);
                assert(rv =~= rv0.update(i as int, m));
                assert(distinct_appids(rv)) by {
                    assert forall|a: int, b: int| 0 <= a < b < rv.len() implies #[trigger] rv[a].appid != #[trigger] rv[b].appid by {
                        assert(rv0[a].appid != rv0[b].appid);
                    }
                }
                proof {
                    assert(rv0[i as int] == old(self).deployed_games@[i as int]@);
                    lemma_lookup_update(rv0, i as int, m, m.appid);
                    assert forall|a: Seq<char>| a != appid@ implies #[trigger] lookup(rv, a) == lookup(rv0, a) by {
                        lemma_lookup_update(rv0, i as int, m, a);
                    }
                }
            },
            None => {
                self.deployed_games.push(rec);
                let ghost rv = records_view(self.deployed_games@);
                assert(rv =~= rv0.push(m));
                assert(rv.drop_last() =~= rv0);
                assert(distinct_appids(rv)) by {
                    assert forall|a: int, b: int| 0 <= a < b < rv.len() implies #[trigger] rv[a].appid != #[trigger] rv[b].appid by {
                        if b == rv.len() - 1 {
                            assert(rv0[a] == old(self).deployed_games@[a]@);
                        } else {
                            assert(rv0[a].appid != rv0[b].appid);
                        }
                    }
                }
            },
        }
    }

    /// Records the game under `appid`, stamped with the current time, replacing an
    /// earlier record.
    pub fn register(&mut self, appid: String, name: String, source: InstallSource, install_dir: String)
        requires
            old(self).wf(),
        ensures
            final(self).wf(),
            exists|t: u64| final(self).record_of(appid@) == Some(RecordModel {
                appid: appid@, name: name@, source, install_dir: install_dir@, timestamp: t }),
            forall|a: Seq<char>| a != appid@ ==> #[trigger] final(self).record_of(a) == old(self).record_of(a),
    {
        let timestamp = unix_time_secs();
        self.register_at(appid, name, source, install_dir, timestamp);
    }

    /// How the game under `appid` was installed, if it is registered.
    pub fn get_source(&self, appid: &str) -> (r: Option<InstallSource>)
        requires
            self.wf(),
        ensures
            r == (match self.record_of(appid@) {
                Some(m) => Some(m.source),
                None => None,
            }),
    {
        let ghost rv = records_view(self.deployed_games@);
        match self.index_of(appid) {
            Some(i) => {
                assert(rv[i as int] == self.deployed_games@[i as int]@);
                proof { lemma_lookup_found(rv, i as int); }
                Some(self.deployed_games[i].source)
            },
            None => {
                proof {
                    assert forall|j: int| 0 <= j < rv.len() implies #[trigger] rv[j].appid != appid@ by {
                        assert(rv[j] == self.deployed_games@[j]@);
                    }
                    lemma_lookup_absent(rv, appid@);
                }
                None
            },
        }
    }
}

} // verus!
