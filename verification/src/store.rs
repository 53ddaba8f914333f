//! The cache store: the authoritative map from key to value. Entries are held
//! sorted by key, so a snapshot iterates deterministically; absence of a key
//! is distinct from an empty value. Every operation relates the store to its
//! abstract view, a [`Map`] from key characters to value characters.

use crate::codec::escape;
use crate::codec::push_char;
use crate::codec::push_escaped;
use crate::codec::quote;
use crate::codec::CacheEntry;
use crate::order::lex_lt;
use crate::order::lemma_lex_lt_transitive;
use crate::order::lemma_lex_lt_trichotomy;
use crate::order::lt_str;
use vstd::prelude::*;

verus! {

/// The entries' keys are strictly ascending.
pub open spec fn sorted_by_key(s: Seq<(Seq<char>, Seq<char>)>) -> bool {
    forall|i: int, j: int|
        0 <= i < j < s.len() ==> lex_lt((#[trigger] s[i]).0, (#[trigger] s[j]).0)
}

/// No two entries share a key.
pub open spec fn keys_unique(s: Seq<(Seq<char>, Seq<char>)>) -> bool {
    forall|i: int, j: int| 0 <= i < j < s.len() ==> (#[trigger] s[i]).0 != (#[trigger] s[j]).0
}

/// Some entry carries the key `k`.
pub open spec fn has_key(s: Seq<(Seq<char>, Seq<char>)>, k: Seq<char>) -> bool {
    exists|i: int| 0 <= i < s.len() && (#[trigger] s[i]).0 == k
}

/// The map an entry sequence stands for; a later entry wins a shared key.
pub open spec fn kvs_map(s: Seq<(Seq<char>, Seq<char>)>) -> Map<Seq<char>, Seq<char>>
    decreases s.len(),
{
    if s.len() == 0 {
        Map::empty()
    } else {
        kvs_map(s.drop_last()).insert(s.last().0, s.last().1)
    }
}

/// Strictly ascending keys never repeat.
pub proof fn lemma_sorted_keys_unique(s: Seq<(Seq<char>, Seq<char>)>)
    requires
        sorted_by_key(s),
    ensures
        keys_unique(s),
{
    assert forall|i: int, j: int| 0 <= i < j < s.len() implies (#[trigger] s[i]).0 != (
    #[trigger] s[j]).0 by {
        lemma_lex_lt_trichotomy(s[i].0, s[j].0);
    }
}

/// With unique keys, the map holds exactly the keys of the sequence, each at
/// the value its entry carries.
pub proof fn lemma_kvs_map_properties(s: Seq<(Seq<char>, Seq<char>)>)
    requires
        keys_unique(s),
    ensures
        forall|k: Seq<char>| #[trigger] kvs_map(s).contains_key(k) <==> has_key(s, k),
        forall|i: int|
            0 <= i < s.len() ==> kvs_map(s)[(#[trigger] s[i]).0] == s[i].1 && kvs_map(
                s,
            ).contains_key(s[i].0),
    decreases s.len(),
{
    if s.len() == 0 {
        assert(forall|k: Seq<char>| !has_key(s, k));
    } else {
        let d = s.drop_last();
        let lastp = s.last();
        assert(forall|i: int| 0 <= i < d.len() ==> d[i] == s[i]);
        lemma_kvs_map_properties(d);
        assert forall|k: Seq<char>| #[trigger] kvs_map(s).contains_key(k) <==> has_key(s, k) by {
            assert(kvs_map(s) == kvs_map(d).insert(lastp.0, lastp.1));
            if k == lastp.0 {
                assert(s[s.len() - 1].0 == k);
                assert(has_key(s, k));
                assert(kvs_map(s).contains_key(k));
            } else {
                assert(kvs_map(s).contains_key(k) == kvs_map(d).contains_key(k));
                assert(kvs_map(d).contains_key(k) <==> has_key(d, k));
                if has_key(d, k) {
                    let i = choose|i: int| 0 <= i < d.len() && (#[trigger] d[i]).0 == k;
                    assert(s[i].0 == k);
                    assert(has_key(s, k));
                }
                if has_key(s, k) {
                    let i = choose|i: int| 0 <= i < s.len() && (#[trigger] s[i]).0 == k;
                    assert(i != s.len() - 1);
                    assert(d[i].0 == k);
                    assert(has_key(d, k));
                }
            }
        }
        assert forall|i: int|
            0 <= i < s.len() implies kvs_map(s)[(#[trigger] s[i]).0] == s[i].1 && kvs_map(
            s,
        ).contains_key(s[i].0) by {
            if i == s.len() - 1 {
            } else {
                assert(s[i].0 != lastp.0);
                assert(d[i] == s[i]);
            }
        }
    }
}

/// Overwrite law: inserting under one key twice leaves the later value, and a
/// lookup then finds exactly that value.
pub proof fn lemma_insert_overwrite(
    m: Map<Seq<char>, Seq<char>>,
    k: Seq<char>,
    v1: Seq<char>,
    v2: Seq<char>,
)
    ensures
        m.insert(k, v1).insert(k, v2) == m.insert(k, v2),
        m.insert(k, v1).insert(k, v2).contains_key(k),
        m.insert(k, v1).insert(k, v2)[k] == v2,
{
    assert(m.insert(k, v1).insert(k, v2) =~= m.insert(k, v2));
}

/// Removal idempotence law: after a removal the key is gone, so removing it
/// again finds nothing; and removing an absent key changes nothing.
pub proof fn lemma_remove_idempotent(m: Map<Seq<char>, Seq<char>>, k: Seq<char>)
    ensures
        !m.remove(k).contains_key(k),
        m.remove(k).remove(k) == m.remove(k),
        !m.contains_key(k) ==> m.remove(k) == m,
{
    assert(m.remove(k).remove(k) =~= m.remove(k));
    if !m.contains_key(k) {
        assert(m.remove(k) =~= m);
    }
}

/// One entry as it appears in the store's serialized text: `"key":"value"`,
/// with the codec's escaping.
pub open spec fn entry_text(p: (Seq<char>, Seq<char>)) -> Seq<char> {
    quote() + escape(p.0) + seq!['"', ':', '"'] + escape(p.1) + quote()
}

/// All entries in store order, separated by commas.
pub open spec fn entries_text(s: Seq<(Seq<char>, Seq<char>)>) -> Seq<char>
    decreases s.len(),
{
    if s.len() == 0 {
        Seq::empty()
    } else if s.len() == 1 {
        entry_text(s[0])
    } else {
        entries_text(s.drop_last()) + seq![','] + entry_text(s.last())
    }
}

/// The serialized form of a whole snapshot: a JSON-style object holding every
/// entry in key order.
pub open spec fn snapshot_text(s: Seq<(Seq<char>, Seq<char>)>) -> Seq<char> {
    seq!['{'] + entries_text(s) + seq!['}']
}

/// The shared key-value cache. Callers mutate it directly; a sync session
/// reads snapshots from it and applies inbound entries to it. One operation
/// is one atomic step: each takes the store for the whole call, so no caller
/// observes a partial effect.
pub struct MemoryCache {
    entries: Vec<CacheEntry>,
}

impl View for MemoryCache {
    type V = Map<Seq<char>, Seq<char>>;

    /// The mapping the store currently holds.
    closed spec fn view(&self) -> Map<Seq<char>, Seq<char>> {
        kvs_map(self.seq_view())
    }
}

/// First index whose entry's key is not below `key`; the insertion point that
/// keeps the entries sorted.
fn find_pos(entries: &Vec<CacheEntry>, key: &str) -> (pos: usize)
    ensures
        pos <= entries@.len(),
        forall|j: int| 0 <= j < pos ==> lex_lt((#[trigger] entries@[j]).key@, key@),
        pos < entries@.len() ==> !lex_lt(entries@[pos as int].key@, key@),
{
    let n = entries.len();
    let mut i: usize = 0;
    while i < n
        invariant
            i <= n,
            n == entries@.len(),
            forall|j: int| 0 <= j < i ==> lex_lt((#[trigger] entries@[j]).key@, key@),
        decreases n - i,
    {
        let e = &entries[i];
        if !lt_str(e.key.as_str(), key) {
            return i;
        }
        i = i + 1;
    }
    i
}

impl MemoryCache {
    /// The entries as (key, value) character sequences, in store order.
    pub closed spec fn seq_view(&self) -> Seq<(Seq<char>, Seq<char>)> {
        self.entries@.map_values(|e: CacheEntry| (e.key@, e.value@))
    }

    /// The store's invariant: entries strictly sorted by key.
    pub closed spec fn wf(&self) -> bool {
        sorted_by_key(self.seq_view())
    }

    /// A well-formed store's entries are sorted and carry exactly the keys of
    /// its mapping, each entry at the value the mapping gives its key.
    pub proof fn lemma_snapshot_complete(&self)
        requires
            self.wf(),
        ensures
            sorted_by_key(self.seq_view()),
            keys_unique(self.seq_view()),
            forall|k: Seq<char>| #[trigger] self@.contains_key(k) <==> has_key(self.seq_view(), k),
            forall|i: int|
                0 <= i < self.seq_view().len() ==> self@[(#[trigger] self.seq_view()[i]).0]
                    == self.seq_view()[i].1 && self@.contains_key(self.seq_view()[i].0),
    {
        lemma_sorted_keys_unique(self.seq_view());
        lemma_kvs_map_properties(self.seq_view());
    }

    /// Creates an empty store.
    pub fn new() -> (r: MemoryCache)
        ensures
            r.wf(),
            r@ == Map::<Seq<char>, Seq<char>>::empty(),
            r.seq_view() == Seq::<(Seq<char>, Seq<char>)>::empty(),
    {
        let r = MemoryCache { entries: Vec::new() };
        proof {
            assert(r.seq_view() =~= Seq::<(Seq<char>, Seq<char>)>::empty());
        }
        r
    }

    /// Looks a key up; a pure read, `None` when the key is absent.
    pub fn get(&self, key: String) -> (r: Option<String>)
        requires
            self.wf(),
        ensures
            match r {
                Some(v) => self@.contains_key(key@) && v@ == self@[key@],
                None => !self@.contains_key(key@),
            },
    {
        let n = self.entries.len();
        let mut i: usize = 0;
        while i < n
            invariant
                i <= n,
                n == self.entries@.len(),
                self.wf(),
                forall|j: int| 0 <= j < i ==> (#[trigger] self.entries@[j]).key@ != key@,
            decreases n - i,
        {
            let e = &self.entries[i];
            if e.key == key {
                proof {
                    self.lemma_snapshot_complete();
                    assert(self.seq_view()[i as int].0 == key@);
                }
                return Some(e.value.clone());
            }
            i = i + 1;
        }
        proof {
            self.lemma_snapshot_complete();
            if self@.contains_key(key@) {
                let wi = choose|wi: int|
                    0 <= wi < self.seq_view().len() && (#[trigger] self.seq_view()[wi]).0 == key@;
                assert(self.entries@[wi].key@ == key@);
            }
        }
        None
    }

    /// Binds `key` to `value`, overwriting any prior value for the key.
    /// Always succeeds.
    pub fn insert(&mut self, key: String, value: String)
        requires
            old(self).wf(),
        ensures
            final(self).wf(),
            final(self)@ == old(self)@.insert(key@, value@),
    {
        let ghost s0 = self.seq_view();
        proof {
            lemma_sorted_keys_unique(s0);
            lemma_kvs_map_properties(s0);
        }
        let pos = find_pos(&self.entries, key.as_str());
        let mut replace = false;
        if pos < self.entries.len() {
            let e = &self.entries[pos];
            if e.key == key {
                replace = true;
            }
        }
        if replace {
            self.entries.remove(pos);
            self.entries.insert(pos, CacheEntry { key, value });
            proof {
                let t = self.seq_view();
                let k = s0[pos as int].0;
                assert(t =~= s0.update(pos as int, (k, t[pos as int].1)));
                assert(forall|i: int| 0 <= i < t.len() ==> (#[trigger] t[i]).0 == s0[i].0);
                assert(sorted_by_key(t));
                lemma_sorted_keys_unique(t);
                lemma_kvs_map_properties(t);
                assert forall|k2: Seq<char>|
                    kvs_map(t).contains_key(k2) == #[trigger] kvs_map(s0).insert(
                        k,
                        t[pos as int].1,
                    ).contains_key(k2) by {
                    if k2 == k {
                        assert(has_key(t, k2));
                    } else {
                        if has_key(t, k2) {
                            let i = choose|i: int| 0 <= i < t.len() && (#[trigger] t[i]).0 == k2;
                            assert(s0[i].0 == k2);
                            assert(has_key(s0, k2));
                        }
                        if has_key(s0, k2) {
                            let i = choose|i: int| 0 <= i < s0.len() && (#[trigger] s0[i]).0 == k2;
                            assert(t[i].0 == k2);
                            assert(has_key(t, k2));
                        }
                    }
                }
                assert forall|k2: Seq<char>| #[trigger]
                    kvs_map(t).contains_key(k2) implies kvs_map(t)[k2] == kvs_map(s0).insert(
                    k,
                    t[pos as int].1,
                )[k2] by {
                    let i = choose|i: int| 0 <= i < t.len() && (#[trigger] t[i]).0 == k2;
                    if i == pos as int {
                        assert(k2 == k);
                    } else {
                        assert(k2 != k);
                        assert(s0[i] == t[i]);
                        assert(kvs_map(s0)[k2] == s0[i].1);
                    }
                }
                assert(kvs_map(t) =~= kvs_map(s0).insert(k, t[pos as int].1));
            }
        } else {
            proof {
                if pos < self.entries@.len() {
                    lemma_lex_lt_trichotomy(s0[pos as int].0, key@);
                }
            }
            self.entries.insert(pos, CacheEntry { key, value });
            proof {
                let t = self.seq_view();
                let k = t[pos as int].0;
                let v = t[pos as int].1;
                assert(t =~= s0.insert(pos as int, (k, v)));
                assert(forall|i: int| 0 <= i < pos ==> t[i] == s0[i]);
                assert(forall|i: int| pos < i < t.len() ==> t[i] == s0[i - 1]);
                // the new key is above everything before `pos` and below
                // everything after it
                assert forall|i: int, j: int|
                    0 <= i < j < t.len() implies lex_lt((#[trigger] t[i]).0, (#[trigger] t[j]).0) by {
                    if i == pos as int {
                        if j == pos as int + 1 {
                        } else {
                            lemma_lex_lt_transitive(k, s0[pos as int].0, s0[j - 1].0);
                        }
                    } else if j == pos as int {
                    } else {
                    }
                }
                assert(sorted_by_key(t));
                lemma_sorted_keys_unique(t);
                lemma_kvs_map_properties(t);
                assert forall|k2: Seq<char>|
                    kvs_map(t).contains_key(k2) == #[trigger] kvs_map(s0).insert(
                        k,
                        v,
                    ).contains_key(k2) by {
                    if k2 == k {
                        assert(t[pos as int].0 == k2);
                        assert(has_key(t, k2));
                    } else {
                        if has_key(t, k2) {
                            let i = choose|i: int| 0 <= i < t.len() && (#[trigger] t[i]).0 == k2;
                            if i < pos as int {
                                assert(s0[i].0 == k2);
                            } else {
                                assert(s0[i - 1].0 == k2);
                            }
                            assert(has_key(s0, k2));
                        }
                        if has_key(s0, k2) {
                            let i = choose|i: int| 0 <= i < s0.len() && (#[trigger] s0[i]).0 == k2;
                            if i < pos as int {
                                assert(t[i].0 == k2);
                            } else {
                                assert(t[i + 1].0 == k2);
                            }
                            assert(has_key(t, k2));
                        }
                    }
                }
                assert forall|k2: Seq<char>| #[trigger]
                    kvs_map(t).contains_key(k2) implies kvs_map(t)[k2] == kvs_map(s0).insert(
                    k,
                    v,
                )[k2] by {
                    let i = choose|i: int| 0 <= i < t.len() && (#[trigger] t[i]).0 == k2;
                    if i == pos as int {
                        assert(k2 == k);
                    } else if i < pos as int {
                        assert(k2 != k);
                        assert(s0[i] == t[i]);
                        assert(kvs_map(s0)[k2] == s0[i].1);
                    } else {
                        assert(k2 != k);
                        assert(s0[i - 1] == t[i]);
                        assert(kvs_map(s0)[k2] == s0[i - 1].1);
                    }
                }
                assert(kvs_map(t) =~= kvs_map(s0).insert(k, v));
            }
        }
    }

    /// Deletes the entry for `key`, returning the prior value; removing an
    /// absent key is a no-op that returns `None`, not an error.
    pub fn remove(&mut self, key: String) -> (r: Option<String>)
        requires
            old(self).wf(),
        ensures
            final(self).wf(),
            final(self)@ == old(self)@.remove(key@),
            match r {
                Some(v) => old(self)@.contains_key(key@) && v@ == old(self)@[key@],
                None => !old(self)@.contains_key(key@) && *final(self) == *old(self),
            },
    {
        let ghost s0 = self.seq_view();
        proof {
            lemma_sorted_keys_unique(s0);
            lemma_kvs_map_properties(s0);
        }
        let n = self.entries.len();
        let mut i: usize = 0;
        while i < n
            invariant
                i <= n,
                n == self.entries@.len(),
                *self == *old(self),
                old(self).wf(),
                s0 == self.seq_view(),
                keys_unique(s0),
                forall|j: int| 0 <= j < i ==> (#[trigger] self.entries@[j]).key@ != key@,
            decreases n - i,
        {
            let hit = self.entries[i].key == key;
            if hit {
                let e = self.entries.remove(i);
                proof {
                    lemma_kvs_map_properties(s0);
                    let t = self.seq_view();
                    assert(t =~= s0.remove(i as int));
                    assert(forall|j: int| 0 <= j < i ==> t[j] == s0[j]);
                    assert(forall|j: int| i <= j < t.len() ==> t[j] == s0[j + 1]);
                    assert(sorted_by_key(t));
                    lemma_sorted_keys_unique(t);
                    lemma_kvs_map_properties(t);
                    assert(s0[i as int].0 == key@);
                    assert(has_key(s0, key@));
                    assert forall|k2: Seq<char>|
                        kvs_map(t).contains_key(k2) == #[trigger] kvs_map(s0).remove(
                            key@,
                        ).contains_key(k2) by {
                        if k2 != key@ {
                            if has_key(t, k2) {
                                let w = choose|w: int|
                                    0 <= w < t.len() && (#[trigger] t[w]).0 == k2;
                                if w < i as int {
                                    assert(s0[w].0 == k2);
                                } else {
                                    assert(s0[w + 1].0 == k2);
                                }
                                assert(has_key(s0, k2));
                            }
                            if has_key(s0, k2) {
                                let w = choose|w: int|
                                    0 <= w < s0.len() && (#[trigger] s0[w]).0 == k2;
                                assert(w != i as int);
                                if w < i as int {
                                    assert(t[w].0 == k2);
                                } else {
                                    assert(t[w - 1].0 == k2);
                                }
                                assert(has_key(t, k2));
                            }
                        } else {
                            if has_key(t, k2) {
                                let w = choose|w: int|
                                    0 <= w < t.len() && (#[trigger] t[w]).0 == k2;
                                if w < i as int {
                                    assert(s0[w].0 == k2 && s0[i as int].0 == k2);
                                    assert(false);
                                } else {
                                    assert(s0[w + 1].0 == k2 && s0[i as int].0 == k2);
                                    assert(false);
                                }
                            }
                        }
                    }
                    assert forall|k2: Seq<char>| #[trigger]
                        kvs_map(t).contains_key(k2) implies kvs_map(t)[k2] == kvs_map(s0).remove(
                        key@,
                    )[k2] by {
                        let w = choose|w: int| 0 <= w < t.len() && (#[trigger] t[w]).0 == k2;
                        if w < i as int {
                            assert(s0[w] == t[w]);
                            assert(kvs_map(s0)[k2] == s0[w].1);
                        } else {
                            assert(s0[w + 1] == t[w]);
                            assert(kvs_map(s0)[k2] == s0[w + 1].1);
                        }
                    }
                    assert(kvs_map(t) =~= kvs_map(s0).remove(key@));
                }
                return Some(e.value);
            }
            i = i + 1;
        }
        proof {
            lemma_kvs_map_properties(s0);
            if kvs_map(s0).contains_key(key@) {
                let wi = choose|wi: int| 0 <= wi < s0.len() && (#[trigger] s0[wi]).0 == key@;
                assert(self.entries@[wi].key@ == key@);
            }
            assert(kvs_map(s0).remove(key@) =~= kvs_map(s0));
        }
        None
    }

    /// A point-in-time copy of all entries, in ascending key order.
    pub fn snapshot(&self) -> (r: Vec<CacheEntry>)
        requires
            self.wf(),
        ensures
            r@.len() == self.seq_view().len(),
            forall|i: int|
                0 <= i < r@.len() ==> (#[trigger] r@[i]).key@ == self.seq_view()[i].0
                    && r@[i].value@ == self.seq_view()[i].1,
    {
        let n = self.entries.len();
        let mut out: Vec<CacheEntry> = Vec::new();
        let mut i: usize = 0;
        while i < n
            invariant
                i <= n,
                n == self.entries@.len(),
                out@.len() == i,
                forall|j: int|
                    0 <= j < i ==> (#[trigger] out@[j]).key@ == self.seq_view()[j].0
                        && out@[j].value@ == self.seq_view()[j].1,
            decreases n - i,
        {
            let e = &self.entries[i];
            out.push(CacheEntry { key: e.key.clone(), value: e.value.clone() });
            i = i + 1;
        }
        out
    }

    /// The whole store serialized for inspection or export: every entry, in
    /// key order, as one JSON-style object.
    pub fn get_all(&self) -> (r: String)
        requires
            self.wf(),
        ensures
            r@ == snapshot_text(self.seq_view()),
    {
        let mut t = String::new();
        push_char(&mut t, '{');
        proof {
            assert(self.seq_view().take(0) =~= Seq::<(Seq<char>, Seq<char>)>::empty());
            assert(t@ =~= seq!['{'] + entries_text(self.seq_view().take(0)));
        }
        let n = self.entries.len();
        let mut i: usize = 0;
        while i < n
            invariant
                i <= n,
                n == self.entries@.len(),
                t@ == seq!['{'] + entries_text(self.seq_view().take(i as int)),
            decreases n - i,
        {
            if i > 0 {
                push_char(&mut t, ',');
            }
            let e = &self.entries[i];
            push_char(&mut t, '"');
            push_escaped(&mut t, e.key.as_str());
            push_char(&mut t, '"');
            push_char(&mut t, ':');
            push_char(&mut t, '"');
            push_escaped(&mut t, e.value.as_str());
            push_char(&mut t, '"');
            proof {
                let sv = self.seq_view();
                assert(sv.take(i as int + 1).drop_last() =~= sv.take(i as int));
                assert(sv.take(i as int + 1).last() == sv[i as int]);
                assert(t@ =~= seq!['{'] + entries_text(sv.take(i as int + 1)));
            }
            i = i + 1;
        }
        push_char(&mut t, '}');
        proof {
            assert(self.seq_view().take(n as int) =~= self.seq_view());
            assert(t@ =~= snapshot_text(self.seq_view()));
        }
        t
    }
}

} // verus!
