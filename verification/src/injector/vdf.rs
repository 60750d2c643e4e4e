//! Decryption keys in Steam's `config.vdf`, edited on the parsed tree:
//! `InstallConfigStore/Software/Valve/Steam/depots/{depot}/DecryptionKey`.
use vstd::prelude::*;
use crate::paths::PathText;
use crate::utils::vdf::{VdfParser, VdfValue, entries_of, lemma_entries_of, node_of, str_seqs};
use crate::vdf_model::{VdfNode, node_get, node_has_key, node_insert, path_ok, path_replace,
    path_target, write_document, parse_document};
use crate::app_list::pairs_view;
use crate::text::strings_view;

verus! {

pub struct VdfInjector {
    pub steam_path: PathText,
}

/// Why a `config.vdf` could not take the keys.
#[derive(Debug, PartialEq, Eq, Structural)]
pub enum InjectError {
    /// The document has no `InstallConfigStore` section.
    MissingInstallConfigStore,
}

impl InjectError {
    pub fn message(&self) -> (r: String)
        ensures
            r@ == "Invalid config.vdf structure (missing InstallConfigStore)"@,
    {
        "Invalid config.vdf structure (missing InstallConfigStore)".to_string()
    }
}

/// `Software/Valve/Steam` below `InstallConfigStore`.
pub open spec fn steam_keys() -> Seq<Seq<char>> {
    seq!["Software"@, "Valve"@, "Steam"@]
}

/// The depot entry with its decryption key set: a new entry holding just the
/// key when the depot is absent, else the key stored in the depot's object
/// (a string entry left as it is).
pub open spec fn with_key(depots: VdfNode, depot: Seq<char>, key: Seq<char>) -> VdfNode {
    if !node_has_key(depots, depot) {
        node_insert(depots, depot, VdfNode::Obj(seq![("DecryptionKey"@, VdfNode::Str(key))]))
    } else {
        node_insert(depots, depot, node_insert(node_get(depots, depot)->0, "DecryptionKey"@, VdfNode::Str(key)))
    }
}

/// All keys set, in order.
pub open spec fn with_keys(depots: VdfNode, keys: Seq<(Seq<char>, Seq<char>)>) -> VdfNode
    decreases keys.len(),
{
    if keys.len() == 0 {
        depots
    } else {
        with_key(with_keys(depots, keys.drop_last()), keys.last().0, keys.last().1)
    }
}

/// The document once the keys are injected; `None` when it has no
/// `InstallConfigStore`. The `Software/Valve/Steam` and `depots` sections are
/// created when missing; a string where an object is needed leaves the
/// document as far as it got.
pub open spec fn injected(root: VdfNode, keys: Seq<(Seq<char>, Seq<char>)>) -> Option<VdfNode> {
    if !node_has_key(root, "InstallConfigStore"@) {
        None
    } else {
        let base = node_get(root, "InstallConfigStore"@)->0;
        if !path_ok(base, steam_keys()) {
            Some(root)
        } else {
            let steam = path_target(base, steam_keys());
            let new_steam = if !path_ok(steam, seq!["depots"@]) {
                steam
            } else {
                path_replace(steam, seq!["depots"@], with_keys(path_target(steam, seq!["depots"@]), keys))
            };
            Some(node_insert(root, "InstallConfigStore"@, path_replace(base, steam_keys(), new_steam)))
        }
    }
}

/// The entries of `depots` that stay: those whose key is not one of the ids.
pub open spec fn kept_depots(es: Seq<(Seq<char>, VdfNode)>, ids: Seq<Seq<char>>) -> Seq<(Seq<char>, VdfNode)> {
    es.filter(not_listed(ids))
}

/// An entry whose key is none of the ids.
pub open spec fn not_listed(ids: Seq<Seq<char>>) -> spec_fn((Seq<char>, VdfNode)) -> bool {
    |e: (Seq<char>, VdfNode)| !ids.contains(e.0)
}

/// How many depot entries go, and the document after they went.
pub open spec fn removed(root: VdfNode, ids: Seq<Seq<char>>) -> (nat, VdfNode) {
    if !node_has_key(root, "InstallConfigStore"@) {
        (0, root)
    } else {
        let base = node_get(root, "InstallConfigStore"@)->0;
        if !path_ok(base, steam_keys()) {
            (0, root)
        } else {
            let steam = path_target(base, steam_keys());
            match node_get(steam, "depots"@) {
                Some(VdfNode::Obj(es)) => {
                    let kept = kept_depots(es, ids);
                    ((es.len() - kept.len()) as nat, node_insert(root, "InstallConfigStore"@,
                        path_replace(base, steam_keys(), node_insert(steam, "depots"@, VdfNode::Obj(kept)))))
                },
                _ => (0, node_insert(root, "InstallConfigStore"@, path_replace(base, steam_keys(), steam))),
            }
        }
    }
}

/// Storing a node's own child under its key leaves it as it was.
proof fn lemma_insert_own(v: VdfNode, key: Seq<char>)
    requires
        node_has_key(v, key),
    ensures
        node_insert(v, key, node_get(v, key)->0) == v,
{
    match v {
        VdfNode::Obj(es) => {
            let i = crate::vdf_model::key_index(es, key);
            crate::vdf_model::lemma_key_index(es, key);
            assert(es.update(i, (es[i].0, es[i].1)) =~= es);
        },
        VdfNode::Str(_) => {},
    }
}

impl VdfInjector {
    pub fn new(steam_path: &str) -> (r: VdfInjector)
        ensures
            r.steam_path@ == seq![steam_path@],
    {
        VdfInjector { steam_path: PathText::new(steam_path) }
    }

    pub fn set_paths(&mut self, steam_path: &str)
        ensures
            final(self).steam_path@ == seq![steam_path@],
    {
        self.steam_path = PathText::new(steam_path);
    }

    /// `config/config.vdf` under the Steam folder.
    pub fn config_path(&self) -> (r: PathText)
        ensures
            r@ == self.steam_path@.push("config"@).push("config.vdf"@),
    {
        self.steam_path.join("config").join("config.vdf")
    }

    /// The new text of `config.vdf` with the keys injected, or why it cannot
    /// take them.
    pub fn inject_vdf(&self, config_text: &str, vdf_keys: &Vec<(String, String)>) -> (r: Result<String, InjectError>)
        ensures
            match injected(parse_document(config_text@), pairs_view(vdf_keys@)) {
                None => r == Err::<String, InjectError>(InjectError::MissingInstallConfigStore),
                Some(n) => r is Ok && r->Ok_0@ == write_document(n),
            },
    {
        let mut root = match VdfParser::parse(config_text) {
            Some(v) => v,
            None => VdfValue::Obj(Vec::new()),
        };
        if !root.has_key("InstallConfigStore") {
            return Err(InjectError::MissingInstallConfigStore);
        }
        let ghost r0 = root@;
        let ghost ks = pairs_view(vdf_keys@);
        proof { lemma_insert_own(r0, "InstallConfigStore"@); }
        match root.get_mut("InstallConfigStore") {
            Some(base) => {
                let ghost b0 = (*base)@;
                assert(b0 == node_get(r0, "InstallConfigStore"@)->0);
                let p1: &[&str] = &["Software", "Valve", "Steam"];
                proof {
                    reveal_strlit("Software");
                    reveal_strlit("Valve");
                    reveal_strlit("Steam");
                    assert(str_seqs(p1@) =~= steam_keys());
                }
                match base.ensure_path(p1) {
                    Some(steam) => {
                        let ghost s0 = (*steam)@;
                        assert(path_ok(b0, steam_keys()) && s0 == path_target(b0, steam_keys()));
                        let p2: &[&str] = &["depots"];
                        proof {
                            reveal_strlit("depots");
                            assert(str_seqs(p2@) =~= seq!["depots"@]);
                        }
                        match steam.ensure_path(p2) {
                            Some(depots) => {
                                let ghost d0 = (*depots)@;
                                assert(path_ok(s0, seq!["depots"@]) && d0 == path_target(s0, seq!["depots"@]));
                                Self::inject_all(depots, vdf_keys);
                            },
                            None => {
                                assert(!path_ok(s0, seq!["depots"@]));
                            },
                        }
                    },
                    None => {
                        assert(!path_ok(b0, steam_keys()));
                    },
                }
            },
            None => {},
        }
        proof {
            assert(root@ == injected(r0, ks)->0);
        }
        Ok(VdfParser::serialize(&root))
    }

    /// Sets every key on the `depots` node, in order.
    fn inject_all(depots: &mut VdfValue, vdf_keys: &Vec<(String, String)>)
        ensures
            final(depots)@ == with_keys(old(depots)@, pairs_view(vdf_keys@)),
    {
        let ghost d0 = depots@;
        let mut i: usize = 0;
        while i < vdf_keys.len()
            invariant
                i <= vdf_keys.len(),
                depots@ == with_keys(d0, pairs_view(vdf_keys@).take(i as int)),
            decreases vdf_keys.len() - i,
        {
            proof {
                let t = pairs_view(vdf_keys@).take(i as int + 1);
                assert(t.drop_last() =~= pairs_view(vdf_keys@).take(i as int));
                assert(t.last() == (vdf_keys@[i as int].0@, vdf_keys@[i as int].1@));
            }
            Self::inject_one(depots, &vdf_keys[i].0, &vdf_keys[i].1);
            i = i + 1;
        }
        assert(pairs_view(vdf_keys@).take(vdf_keys.len() as int) =~= pairs_view(vdf_keys@));
    }

    fn inject_one(depots: &mut VdfValue, depot_id: &str, key: &str)
        ensures
            final(depots)@ == with_key(old(depots)@, depot_id@, key@),
    {
        let ghost d0 = depots@;
        let ghost dv: VdfValue = *depots;
        proof {
            match dv {
                VdfValue::Obj(es) => { lemma_entries_of(es@); },
                VdfValue::Str(_) => {},
            }
        }
        if !depots.has_key(depot_id) {
            let mut fields: Vec<(String, VdfValue)> = Vec::new();
            let k = "DecryptionKey".to_string();
            let v = VdfValue::Str(key.to_string());
            assert(v@ == VdfNode::Str(key@));
            fields.push((k, v));
            proof {
                lemma_entries_of(fields@);
                assert(entries_of(fields@) =~= seq![("DecryptionKey"@, VdfNode::Str(key@))]);
            }
            let obj = VdfValue::Obj(fields);
            assert(obj@ == VdfNode::Obj(seq![("DecryptionKey"@, VdfNode::Str(key@))]));
            depots.insert_or_update(depot_id.to_string(), obj);
        } else {
            match depots.get_mut(depot_id) {
                Some(app_node) => {
                    let ghost a0 = (*app_node)@;
                    assert(a0 == node_get(d0, depot_id@)->0);
                    let v = VdfValue::Str(key.to_string());
                    assert(v@ == VdfNode::Str(key@));
                    app_node.insert_or_update("DecryptionKey".to_string(), v);
                    assert((*app_node)@ == node_insert(a0, "DecryptionKey"@, VdfNode::Str(key@)));
                },
                None => {},
            }
        }
    }

    /// How many depot entries the ids remove from `config.vdf`, with the new
    /// text when there are any (the file is left alone otherwise).
    pub fn remove_vdf_keys(&self, config_text: &str, depot_ids: &Vec<String>) -> (r: (usize, Option<String>))
        ensures
            r.0 == removed(parse_document(config_text@), strings_view(depot_ids@)).0,
            r.0 == 0 ==> r.1 is None,
            r.0 > 0 ==> r.1 is Some && r.1->0@ == write_document(removed(parse_document(config_text@), strings_view(depot_ids@)).1),
    {
        let mut root = match VdfParser::parse(config_text) {
            Some(v) => v,
            None => VdfValue::Obj(Vec::new()),
        };
        if !root.has_key("InstallConfigStore") {
            return (0, None);
        }
        let ghost r0 = root@;
        let ghost ids = strings_view(depot_ids@);
        let mut count: usize = 0;
        match root.get_mut("InstallConfigStore") {
            Some(base) => {
                let p1: &[&str] = &["Software", "Valve", "Steam"];
                proof {
                    reveal_strlit("Software");
                    reveal_strlit("Valve");
                    reveal_strlit("Steam");
                    assert(str_seqs(p1@) =~= steam_keys());
                }
                match base.ensure_path(p1) {
                    Some(steam) => {
                        match steam.get_mut("depots") {
                            Some(depots) => {
                                count = Self::drop_depots(depots, depot_ids);
                            },
                            None => {},
                        }
                    },
                    None => {},
                }
            },
            None => {},
        }
        proof {
            assert(count == removed(r0, ids).0);
            assert(count > 0 ==> root@ == removed(r0, ids).1);
        }
        if count > 0 {
            (count, Some(VdfParser::serialize(&root)))
        } else {
            (0, None)
        }
    }

    /// Drops the entries keyed by one of the ids from an object node; how many
    /// went. A string node stays.
    fn drop_depots(depots: &mut VdfValue, depot_ids: &Vec<String>) -> (n: usize)
        ensures
            match old(depots)@ {
                VdfNode::Obj(es) => {
                    &&& final(depots)@ == VdfNode::Obj(kept_depots(es, strings_view(depot_ids@)))
                    &&& n == es.len() - kept_depots(es, strings_view(depot_ids@)).len()
                },
                VdfNode::Str(_) => n == 0 && final(depots)@ == old(depots)@,
            },
    {
        match depots {
            VdfValue::Obj(es) => {
                let ghost ids = strings_view(depot_ids@);
                let ghost src = es@;
                let ghost e0 = entries_of(src);
                let ghost pred = not_listed(ids);
                proof {
                    lemma_entries_of(src);
                    assert(e0.take(0) =~= Seq::<(Seq<char>, VdfNode)>::empty());
                    assert(entries_of(es@.take(0)) =~= Seq::<(Seq<char>, VdfNode)>::empty());
                    reveal_with_fuel(Seq::<(Seq<char>, VdfNode)>::filter, 1);
                }
                let start_len = es.len();
                assert(src.len() == start_len);
                assert(old(depots)@ == VdfNode::Obj(e0));
                let mut j: usize = 0;
                let mut count: usize = 0;
                let ghost mut c: int = 0;
                while j < es.len()
                    invariant
                        j <= es.len(),
                        0 <= c <= src.len(),
                        es.len() - j == src.len() - c,
                        count == c - j,
                        e0 == entries_of(src),
                        e0.len() == src.len(),
                        src.len() <= usize::MAX,
                        pred == not_listed(ids),
                        forall|k: int| 0 <= k < src.len() ==> #[trigger] e0[k] == (src[k].0@, node_of(&src[k].1)),
                        ids == strings_view(depot_ids@),
                        forall|k: int| j <= k < es.len() ==> #[trigger] es@[k] == src[c + (k - j)],
                        entries_of(es@.take(j as int)) == kept_depots(e0.take(c), ids),
                    decreases es.len() - j,
                {
                    let drop = crate::app_list::holds_text(depot_ids, &es[j].0);
                    proof {
                        assert(e0[c] == (src[c].0@, node_of(&src[c].1)));
                        assert(pred(e0[c]) == !drop);
                        assert(es@[j as int] == src[c]);
                        assert(e0.take(c + 1) =~= e0.take(c).push(e0[c]));
                        e0.take(c).lemma_filter_push(e0[c], pred);
                    }
                    if drop {
                        let ghost before = es@;
                        es.remove(j);
                        count = count + 1;
                        proof {
                            assert(es@.take(j as int) =~= before.take(j as int));
                            assert forall|k: int| j <= k < es.len() implies #[trigger] es@[k] == src[(c + 1) + (k - j)] by {
                                assert(es@[k] == before[k + 1]);
                            }
                        }
                    } else {
                        proof {
                            lemma_entries_of(es@.take(j as int));
                            lemma_entries_of(es@.take(j as int + 1));
                            assert(entries_of(es@.take(j as int + 1)) =~= entries_of(es@.take(j as int)).push(e0[c]));
                            assert forall|k: int| j + 1 <= k < es.len() implies #[trigger] es@[k] == src[(c + 1) + (k - (j + 1))] by {
                            }
                        }
                        j = j + 1;
                    }
                    proof { c = c + 1; }
                }
                proof {
                    lemma_entries_of(es@);
                    assert(es@.take(j as int) =~= es@);
                    assert(e0.take(c) =~= e0);
                    assert(entries_of(es@) == kept_depots(e0, ids));
                    e0.lemma_filter_len(pred);
                    e0.filter_lemma(pred);
                }
                count
            },
            VdfValue::Str(_) => 0,
        }
    }
}


/// Read after write: once a key is set for a depot of a `depots` object whose
/// entry for it is absent or an object, that entry holds the key as its
/// `DecryptionKey`; the entries of other depots stay as they were.
pub proof fn law_key_is_set(depots: VdfNode, depot: Seq<char>, key: Seq<char>, other: Seq<char>)
    requires
        depots is Obj,
        node_get(depots, depot) is None || node_get(depots, depot)->0 is Obj,
    ensures
        node_get(with_key(depots, depot, key), depot) is Some,
        node_get(node_get(with_key(depots, depot, key), depot)->0, "DecryptionKey"@) == Some(VdfNode::Str(key)),
        !crate::vdf_model::key_eq(depot, other) ==> node_get(with_key(depots, depot, key), other) == node_get(depots, other),
{
    let entry = VdfNode::Obj(seq![("DecryptionKey"@, VdfNode::Str(key))]);
    if !node_has_key(depots, depot) {
        crate::vdf_model::law_insert_then_get(depots, depot, entry);
        crate::vdf_model::law_insert_then_get(VdfNode::Obj(Seq::empty()), "DecryptionKey"@, VdfNode::Str(key));
        assert(Seq::<(Seq<char>, VdfNode)>::empty().push(("DecryptionKey"@, VdfNode::Str(key)))
            =~= seq![("DecryptionKey"@, VdfNode::Str(key))]);
        if !crate::vdf_model::key_eq(depot, other) {
            crate::vdf_model::law_insert_keeps_others(depots, depot, entry, other);
        }
    } else {
        let child = node_get(depots, depot)->0;
        let new_child = node_insert(child, "DecryptionKey"@, VdfNode::Str(key));
        crate::vdf_model::law_insert_then_get(depots, depot, new_child);
        crate::vdf_model::law_insert_then_get(child, "DecryptionKey"@, VdfNode::Str(key));
        if !crate::vdf_model::key_eq(depot, other) {
            crate::vdf_model::law_insert_keeps_others(depots, depot, new_child, other);
        }
    }
}

} // verus!
