//! The token store: OAuth tokens persisted as one JSON object that maps the
//! decimal form of a 64-bit scope fingerprint to the token's own JSON text.
//! The store works purely on bytes: the caller reads the token file once at
//! construction and writes back whatever `set` hands it, so every byte that
//! reaches the disk is produced and specified here.
use vstd::pervasive::VecAdditionalExecFns;
use vstd::prelude::*;

use crate::codec::{
    dec_digits, is_dec_digit, key_scan, key_unit, lemma_acc_app_zero, lemma_dec_digits_shape,
    lemma_key_scan_bounds, lemma_key_scan_digits, lemma_scan_obj_bounds, lemma_scan_obj_embed,
    lemma_skip_ws_bounds, parse_key, scan_obj, scan_object, skip_ws, skip_ws_exec, token_wf,
    write_dec, BACKSLASH, COLON, COMMA, LBRACE, QUOTE, RBRACE,
};
use crate::Config;

verus! {

/// What can go wrong inside the store: a malformed token file. The caller
/// maps its own filesystem failures to `Io`.
#[derive(Debug, Clone, Copy, PartialEq, Eq, Structural)]
pub enum FileStorageError {
    Io,
    Json,
}

/// The mathematical content of a store: scope-hash keys with the byte text of
/// their tokens, in file order.
pub open spec fn entries_view(es: Seq<(u64, Vec<u8>)>) -> Seq<(u64, Seq<u8>)> {
    es.map_values(|e: (u64, Vec<u8>)| (e.0, e.1@))
}

pub open spec fn keys_unique(es: Seq<(u64, Seq<u8>)>) -> bool {
    forall|i: int, j: int| 0 <= i < j < es.len() ==> es[i].0 != es[j].0
}

pub open spec fn entries_wf(es: Seq<(u64, Seq<u8>)>) -> bool {
    forall|i: int| 0 <= i < es.len() ==> token_wf(#[trigger] es[i].1)
}

pub open spec fn has_key(es: Seq<(u64, Seq<u8>)>, k: u64) -> bool {
    exists|i: int| 0 <= i < es.len() && es[i].0 == k
}

pub open spec fn key_index(es: Seq<(u64, Seq<u8>)>, k: u64) -> int {
    choose|i: int| 0 <= i < es.len() && es[i].0 == k
}

pub open spec fn lookup(es: Seq<(u64, Seq<u8>)>, k: u64) -> Option<Seq<u8>> {
    if has_key(es, k) {
        Some(es[key_index(es, k)].1)
    } else {
        None
    }
}

/// Stores `v` under `k`: replaces the token at `k`'s position, or appends a
/// fresh entry.
pub open spec fn upsert(es: Seq<(u64, Seq<u8>)>, k: u64, v: Seq<u8>) -> Seq<(u64, Seq<u8>)> {
    if has_key(es, k) {
        es.update(key_index(es, k), (k, v))
    } else {
        es.push((k, v))
    }
}

/// Deletes `k`'s entry, if any.
pub open spec fn remove_key(es: Seq<(u64, Seq<u8>)>, k: u64) -> Seq<(u64, Seq<u8>)> {
    if has_key(es, k) {
        es.remove(key_index(es, k))
    } else {
        es
    }
}

/// Folds a parsed entry list into a map, later entries overriding earlier
/// ones, as a JSON reader does with repeated keys.
pub open spec fn upsert_all(
    acc: Seq<(u64, Seq<u8>)>,
    es: Seq<(u64, Seq<u8>)>,
) -> Seq<(u64, Seq<u8>)>
    decreases es.len(),
{
    if es.len() == 0 {
        acc
    } else {
        upsert_all(upsert(acc, es[0].0, es[0].1), es.drop_first())
    }
}

/// Storing a token keeps the keys unique and well-formedness intact, makes
/// the stored token the one `lookup` finds under its key, and touches no
/// other key.
pub proof fn lemma_upsert_props(es: Seq<(u64, Seq<u8>)>, k: u64, v: Seq<u8>)
    requires
        keys_unique(es),
    ensures
        keys_unique(upsert(es, k, v)),
        entries_wf(es) && token_wf(v) ==> entries_wf(upsert(es, k, v)),
        lookup(upsert(es, k, v), k) == Some(v),
        forall|k2: u64| k2 != k ==> lookup(upsert(es, k, v), k2) == lookup(es, k2),
{
    let up = upsert(es, k, v);
    if has_key(es, k) {
        let i = key_index(es, k);
        assert(0 <= i < es.len() && es[i].0 == k);
        assert(up == es.update(i, (k, v)));
        assert(forall|m: int| 0 <= m < up.len() ==> up[m].0 == es[m].0);
        assert(keys_unique(up));
        assert(entries_wf(es) && token_wf(v) ==> entries_wf(up)) by {
            if entries_wf(es) && token_wf(v) {
                assert(forall|m: int| 0 <= m < up.len() && m != i ==> up[m].1 == es[m].1);
                assert(forall|m: int| 0 <= m < up.len() ==> token_wf(#[trigger] up[m].1));
            }
        }
        assert(up[i].0 == k);
        assert(has_key(up, k));
        let i2 = key_index(up, k);
        assert(0 <= i2 < up.len() && up[i2].0 == k);
        assert(i2 == i);
        assert(lookup(up, k) == Some(v));
    } else {
        assert(up == es.push((k, v)));
        assert(forall|m: int| 0 <= m < es.len() ==> #[trigger] es[m].0 != k);
        assert(forall|m: int| 0 <= m < es.len() ==> up[m] == es[m]);
        assert(up[es.len() as int] == (k, v));
        assert(keys_unique(up));
        assert(entries_wf(es) && token_wf(v) ==> entries_wf(up)) by {
            if entries_wf(es) && token_wf(v) {
                assert(forall|m: int| 0 <= m < up.len() ==> token_wf(#[trigger] up[m].1));
            }
        }
        assert(has_key(up, k));
        let i2 = key_index(up, k);
        assert(0 <= i2 < up.len() && up[i2].0 == k);
        assert(i2 == es.len() as int);
        assert(lookup(up, k) == Some(v));
    }
    assert forall|k2: u64| k2 != k implies lookup(up, k2) == lookup(es, k2) by {
        lemma_upsert_other(es, k, v, k2);
    }
}

/// A key other than the stored one keeps its binding.
proof fn lemma_upsert_other(es: Seq<(u64, Seq<u8>)>, k: u64, v: Seq<u8>, k2: u64)
    requires
        keys_unique(es),
        k2 != k,
    ensures
        lookup(upsert(es, k, v), k2) == lookup(es, k2),
{
    let up = upsert(es, k, v);
    if has_key(es, k) {
        let i = key_index(es, k);
        assert(up == es.update(i, (k, v)));
        if has_key(es, k2) {
            let m = key_index(es, k2);
            assert(0 <= m < es.len() && es[m].0 == k2);
            assert(m != i);
            assert(up[m] == es[m]);
            assert(has_key(up, k2));
            let m2 = key_index(up, k2);
            assert(0 <= m2 < up.len() && up[m2].0 == k2);
            assert(m2 != i);
            assert(es[m2].0 == k2);
            assert(m2 == m);
        } else {
            assert(forall|n: int| 0 <= n < up.len() ==> #[trigger] up[n].0 == es[n].0);
            assert(!has_key(up, k2));
        }
    } else {
        assert(up == es.push((k, v)));
        if has_key(es, k2) {
            let m = key_index(es, k2);
            assert(up[m] == es[m]);
            assert(has_key(up, k2));
            let m2 = key_index(up, k2);
            assert(0 <= m2 < up.len() && up[m2].0 == k2);
            assert(m2 != es.len() as int);
            assert(up[m2] == es[m2]);
            assert(m2 == m);
        } else {
            assert(forall|n: int| 0 <= n < es.len() ==> #[trigger] es[n].0 != k2);
            assert(!has_key(up, k2));
        }
    }
}

/// Deleting a key keeps the rest of the map intact: the key is gone and
/// every other key keeps its binding.
pub proof fn lemma_remove_key_props(es: Seq<(u64, Seq<u8>)>, k: u64)
    requires
        keys_unique(es),
    ensures
        keys_unique(remove_key(es, k)),
        entries_wf(es) ==> entries_wf(remove_key(es, k)),
        !has_key(remove_key(es, k), k),
        lookup(remove_key(es, k), k) is None,
        forall|k2: u64| k2 != k ==> lookup(remove_key(es, k), k2) == lookup(es, k2),
{
    let r = remove_key(es, k);
    if has_key(es, k) {
        let i = key_index(es, k);
        assert(0 <= i < es.len() && es[i].0 == k);
        assert(r == es.remove(i));
        assert(forall|m: int| 0 <= m < i ==> r[m] == es[m]);
        assert(forall|m: int| i <= m < r.len() ==> r[m] == es[m + 1]);
        assert(keys_unique(r)) by {
            assert forall|m1: int, m2: int| 0 <= m1 < m2 < r.len() implies r[m1].0 != r[m2].0 by {
                let o1: int = if m1 < i { m1 } else { m1 + 1 };
                let o2: int = if m2 < i { m2 } else { m2 + 1 };
                assert(r[m1] == es[o1] && r[m2] == es[o2]);
                assert(0 <= o1 < o2 < es.len());
            }
        }
        assert(entries_wf(es) ==> entries_wf(r)) by {
            if entries_wf(es) {
                assert forall|m: int| 0 <= m < r.len() implies token_wf(#[trigger] r[m].1) by {
                    let o: int = if m < i { m } else { m + 1 };
                    assert(r[m] == es[o]);
                    assert(token_wf(es[o].1));
                }
            }
        }
        assert(!has_key(r, k)) by {
            assert forall|m: int| 0 <= m < r.len() implies r[m].0 != k by {
                let o: int = if m < i { m } else { m + 1 };
                assert(r[m] == es[o]);
                assert(o != i);
            }
        }
        assert forall|k2: u64| k2 != k implies lookup(r, k2) == lookup(es, k2) by {
            if has_key(es, k2) {
                let m = key_index(es, k2);
                assert(0 <= m < es.len() && es[m].0 == k2);
                assert(m != i);
                let rm: int = if m < i { m } else { m - 1 };
                assert(r[rm] == es[m]);
                assert(has_key(r, k2));
                let m2 = key_index(r, k2);
                assert(0 <= m2 < r.len() && r[m2].0 == k2);
                let o2: int = if m2 < i { m2 } else { m2 + 1 };
                assert(r[m2] == es[o2]);
                assert(es[o2].0 == k2);
                assert(o2 == m);
                assert(m2 == rm);
                assert(lookup(r, k2) == Some(es[m].1));
            } else {
                assert(!has_key(r, k2)) by {
                    assert forall|m: int| 0 <= m < r.len() implies r[m].0 != k2 by {
                        let o: int = if m < i { m } else { m + 1 };
                        assert(r[m] == es[o]);
                    }
                }
            }
        }
    } else {
        assert(r == es);
    }
}

// ------------------------------------------------------------------
// The on-disk format.
// ------------------------------------------------------------------
/// One serialized entry: the key's decimal digits in quotes, a colon, and the
/// token text verbatim.
pub open spec fn entry_bytes(k: u64, v: Seq<u8>) -> Seq<u8> {
    seq![QUOTE] + dec_digits(k as nat) + seq![QUOTE, COLON] + v
}

/// The serialized entries, comma-separated.
pub open spec fn body_bytes(es: Seq<(u64, Seq<u8>)>) -> Seq<u8>
    decreases es.len(),
{
    if es.len() == 0 {
        seq![]
    } else if es.len() == 1 {
        entry_bytes(es[0].0, es[0].1)
    } else {
        entry_bytes(es[0].0, es[0].1) + seq![COMMA] + body_bytes(es.drop_first())
    }
}

/// The whole file: one JSON object.
pub open spec fn store_bytes(es: Seq<(u64, Seq<u8>)>) -> Seq<u8> {
    seq![LBRACE] + body_bytes(es) + seq![RBRACE]
}

/// Reads one `"key":value` pair whose opening quote stands at `i`; yields
/// the entry and the index just past its value. Keys are decimals without
/// leading zeros that fit in 64 bits, each digit plain or in its JSON string
/// escape form; whitespace may stand around the colon; values are object
/// texts located by the brace-balanced walk.
pub open spec fn parse_entry(s: Seq<u8>, i: int) -> Option<((u64, Seq<u8>), int)> {
    if !(0 <= i < s.len() && s[i] == QUOTE) {
        None
    } else {
        let (v, j) = key_scan(s, i + 1, 0);
        if j == i + 1 || v > u64::MAX {
            None
        } else if (key_unit(s, i + 1) matches Some(u) && u.0 == 0 && j != u.1) {
            None
        } else if !(j < s.len() && s[j] == QUOTE) {
            None
        } else {
            let c = skip_ws(s, j + 1);
            if !(c < s.len() && s[c] == COLON) {
                None
            } else {
                let w = skip_ws(s, c + 1);
                if !(w < s.len() && s[w] == LBRACE) {
                    None
                } else {
                    match scan_obj(s, w + 1, 1, false, false) {
                        Some(n) => Some(((v as u64, s.subrange(w, n)), n)),
                        None => None,
                    }
                }
            }
        }
    }
}

/// Reads a non-empty entry list, skipping whitespace before each key and
/// around each separator, up to the object's closing brace; yields the
/// entries and the index of that brace. The `i < m` bound below only keeps
/// the recursion well-founded: an entry always ends past where it began.
pub open spec fn parse_entries(s: Seq<u8>, i: int) -> Option<(Seq<(u64, Seq<u8>)>, int)>
    decreases s.len() - i,
{
    match parse_entry(s, skip_ws(s, i)) {
        None => None,
        Some(ev) => {
            let ((k, v), j) = ev;
            let m = skip_ws(s, j);
            if !(0 <= m < s.len()) {
                None
            } else if s[m] == RBRACE {
                Some((seq![(k, v)], m))
            } else if s[m] == COMMA && i < m {
                match parse_entries(s, m + 1) {
                    Some(rest) => Some((seq![(k, v)] + rest.0, rest.1)),
                    None => None,
                }
            } else {
                None
            }
        },
    }
}

/// Reads a whole token file. Anything shorter than two bytes counts as the
/// empty map; everything else must be one JSON object in the store's shape,
/// with insignificant whitespace allowed around every token of the object.
pub open spec fn parse_store(s: Seq<u8>) -> Option<Seq<(u64, Seq<u8>)>> {
    if s.len() < 2 {
        Some(seq![])
    } else {
        let a = skip_ws(s, 0);
        if !(a < s.len() && s[a] == LBRACE) {
            None
        } else {
            let b = skip_ws(s, a + 1);
            if b < s.len() && s[b] == RBRACE {
                if skip_ws(s, b + 1) == s.len() {
                    Some(seq![])
                } else {
                    None
                }
            } else {
                match parse_entries(s, a + 1) {
                    Some(res) => {
                        if skip_ws(s, res.1 + 1) == s.len() {
                            Some(res.0)
                        } else {
                            None
                        }
                    },
                    None => None,
                }
            }
        }
    }
}

// ------------------------------------------------------------------
// The store.
// ------------------------------------------------------------------
/// In-memory token store. It loads once, from bytes the caller read, and
/// in-memory state is authoritative afterwards; `set` returns the bytes the
/// caller must persist before reporting success.
pub struct FileStorage {
    entries: Vec<(u64, Vec<u8>)>,
}

impl View for FileStorage {
    type V = Seq<(u64, Seq<u8>)>;

    closed spec fn view(&self) -> Seq<(u64, Seq<u8>)> {
        entries_view(self.entries@)
    }
}

impl FileStorage {
    /// A store is well-formed when its keys are unique and every token text
    /// is one object.
    pub open spec fn wf(&self) -> bool {
        keys_unique(self@) && entries_wf(self@)
    }

    /// Builds the store from the token file's bytes: the empty map for a file
    /// shorter than two bytes, otherwise the parsed object, later duplicates
    /// of a key overriding earlier ones.
    pub fn new(content: &Vec<u8>) -> (r: Result<FileStorage, FileStorageError>)
        ensures
            match r {
                Ok(st) => {
                    &&& parse_store(content@) is Some
                    &&& st@ == upsert_all(Seq::empty(), parse_store(content@)->Some_0)
                    &&& st.wf()
                },
                Err(e) => parse_store(content@) is None && e == FileStorageError::Json,
            },
            content@.len() < 2 ==> r is Ok && r->Ok_0@ == Seq::<(u64, Seq<u8>)>::empty(),
    {
        if content.len() < 2 {
            let st = FileStorage { entries: Vec::new() };
            assert(st@ =~= upsert_all(Seq::empty(), parse_store(content@)->Some_0));
            assert(st@ =~= Seq::<(u64, Seq<u8>)>::empty());
            return Ok(st);
        }
        let a = skip_ws_exec(content, 0);
        if a >= content.len() || content[a] != LBRACE {
            return Err(FileStorageError::Json);
        }
        let b = skip_ws_exec(content, a + 1);
        if b < content.len() && content[b] == RBRACE {
            if skip_ws_exec(content, b + 1) == content.len() {
                let st = FileStorage { entries: Vec::new() };
                assert(st@ =~= upsert_all(Seq::empty(), parse_store(content@)->Some_0));
                return Ok(st);
            }
            return Err(FileStorageError::Json);
        }
        let parsed = match parse_entries_exec(content, a + 1) {
            None => {
                return Err(FileStorageError::Json);
            },
            Some(p) => p,
        };
        let (raw, end) = parsed;
        proof {
            lemma_parse_entries_wf(content@, a as int + 1);
        }
        if skip_ws_exec(content, end + 1) != content.len() {
            return Err(FileStorageError::Json);
        }
        let mut st = FileStorage { entries: Vec::new() };
        let mut idx: usize = 0;
        proof {
            assert(entries_view(raw@).skip(0) =~= entries_view(raw@));
            assert(st@ =~= Seq::<(u64, Seq<u8>)>::empty());
        }
        while idx < raw.len()
            invariant
                idx <= raw@.len(),
                keys_unique(st@),
                entries_wf(st@),
                entries_wf(entries_view(raw@)),
                upsert_all(st@, entries_view(raw@).skip(idx as int)) == upsert_all(
                    Seq::empty(),
                    entries_view(raw@),
                ),
            decreases raw@.len() - idx,
        {
            let ghost pre = st@;
            let ghost rest = entries_view(raw@).skip(idx as int);
            let (k, v) = get_entry(&raw, idx);
            proof {
                assert(rest[0] == entries_view(raw@)[idx as int]);
                lemma_upsert_props(pre, k, v@);
            }
            st.put(k, v);
            proof {
                assert(rest.drop_first() =~= entries_view(raw@).skip(idx as int + 1));
                assert(upsert_all(pre, rest) == upsert_all(st@, rest.drop_first()));
            }
            idx = idx + 1;
        }
        proof {
            assert(entries_view(raw@).skip(raw@.len() as int) =~= Seq::<(u64, Seq<u8>)>::empty());
        }
        Ok(st)
    }

    /// Inserts or replaces in memory only; `new` and `set` drive it.
    fn put(&mut self, k: u64, v: Vec<u8>)
        requires
            keys_unique(old(self)@),
        ensures
            final(self)@ == upsert(old(self)@, k, v@),
    {
        let n = self.entries.len();
        let mut i: usize = 0;
        while i < n
            invariant
                self.entries@ == old(self).entries@,
                keys_unique(self@),
                n == self.entries@.len(),
                i <= n,
                forall|m: int| 0 <= m < i ==> self.entries@[m].0 != k,
            decreases n - i,
        {
            if self.entries[i].0 == k {
                proof {
                    assert(self@[i as int].0 == k);
                    assert(has_key(self@, k));
                }
                self.entries.set(i, (k, v));
                proof {
                    let es = entries_view(old(self).entries@);
                    assert(keys_unique(es));
                    let ki = key_index(es, k);
                    assert(es[ki].0 == k && es[i as int].0 == k);
                    assert(ki == i as int);
                    assert(self@ =~= upsert(es, k, v@));
                }
                return ;
            }
            i = i + 1;
        }
        proof {
            assert(!has_key(self@, k)) by {
                assert(forall|m: int| 0 <= m < self@.len() ==> self@[m].0 != k);
            }
        }
        self.entries.push((k, v));
        proof {
            assert(self@ =~= upsert(entries_view(old(self).entries@), k, v@));
        }
    }

    /// Returns the stored token for the scope fingerprint, or nothing.
    pub fn get(&self, scope_hash: u64) -> (r: Option<Vec<u8>>)
        requires
            self.wf(),
        ensures
            match r {
                Some(t) => lookup(self@, scope_hash) == Some(t@),
                None => lookup(self@, scope_hash) is None,
            },
    {
        let n = self.entries.len();
        let mut i: usize = 0;
        while i < n
            invariant
                self.wf(),
                n == self.entries@.len(),
                i <= n,
                forall|m: int| 0 <= m < i ==> self.entries@[m].0 != scope_hash,
            decreases n - i,
        {
            if self.entries[i].0 == scope_hash {
                let t = clone_bytes(&self.entries[i].1);
                proof {
                    assert(self@[i as int].0 == scope_hash);
                    assert(has_key(self@, scope_hash));
                    let ki = key_index(self@, scope_hash);
                    assert(self@[ki].0 == scope_hash);
                    assert(ki == i as int);
                }
                return Some(t);
            }
            i = i + 1;
        }
        proof {
            assert(forall|m: int| 0 <= m < self@.len() ==> self@[m].0 != scope_hash);
            assert(!has_key(self@, scope_hash));
        }
        None
    }

    /// Stores a token under the scope fingerprint, or deletes the entry when
    /// no token is supplied; returns the bytes that must reach the disk
    /// before the operation counts as done, or nothing when the map is empty
    /// (an empty map never overwrites the file).
    pub fn set(&mut self, scope_hash: u64, token: Option<Vec<u8>>) -> (save: Option<Vec<u8>>)
        requires
            old(self).wf(),
            token is Some ==> token_wf(token->Some_0@),
        ensures
            final(self).wf(),
            final(self)@ == match token {
                Some(t) => upsert(old(self)@, scope_hash, t@),
                None => remove_key(old(self)@, scope_hash),
            },
            match save {
                Some(b) => final(self).save_bytes() == Some(b@),
                None => final(self).save_bytes() is None,
            },
    {
        match token {
            Some(t) => {
                proof {
                    lemma_upsert_props(self@, scope_hash, t@);
                }
                self.put(scope_hash, t);
            },
            None => {
                self.delete(scope_hash);
            },
        }
        self.save()
    }

    /// Removes the key's entry in memory only.
    fn delete(&mut self, k: u64)
        requires
            old(self).wf(),
        ensures
            final(self)@ == remove_key(old(self)@, k),
            final(self).wf(),
    {
        let n = self.entries.len();
        let mut i: usize = 0;
        while i < n
            invariant
                self.entries@ == old(self).entries@,
                self.wf(),
                n == self.entries@.len(),
                i <= n,
                forall|m: int| 0 <= m < i ==> self.entries@[m].0 != k,
            decreases n - i,
        {
            if self.entries[i].0 == k {
                proof {
                    assert(self@[i as int].0 == k);
                    assert(has_key(self@, k));
                    let ki = key_index(self@, k);
                    assert(self@[ki].0 == k);
                    assert(ki == i as int);
                    lemma_remove_key_props(self@, k);
                }
                self.entries.remove(i);
                proof {
                    assert(self@ =~= remove_key(entries_view(old(self).entries@), k));
                }
                return ;
            }
            i = i + 1;
        }
        proof {
            assert(forall|m: int| 0 <= m < self@.len() ==> self@[m].0 != k);
            assert(!has_key(self@, k));
        }
    }

    /// The bytes `save` yields: nothing for the empty map, the serialized
    /// object otherwise.
    pub open spec fn save_bytes(&self) -> Option<Seq<u8>> {
        if self@.len() == 0 {
            None
        } else {
            Some(store_bytes(self@))
        }
    }

    /// Serializes the map for persistence. The empty map is withheld so that
    /// a fresh process never wipes a pre-existing file.
    pub fn save(&self) -> (r: Option<Vec<u8>>)
        ensures
            match r {
                Some(b) => self.save_bytes() == Some(b@) && b@ == store_bytes(self@)
                    && self@.len() > 0,
                None => self.save_bytes() is None && self@.len() == 0,
            },
    {
        if self.entries.len() == 0 {
            proof {
                assert(self@.len() == 0);
            }
            return None;
        }
        let mut out: Vec<u8> = Vec::new();
        out.push(LBRACE);
        write_body(&mut out, &self.entries, 0);
        out.push(RBRACE);
        proof {
            assert(entries_view(self.entries@).subrange(0, self.entries@.len() as int) =~= self@);
            assert(out@ =~= store_bytes(self@));
        }
        Some(out)
    }
}

/// Clones one entry out of the parsed list.
fn get_entry(es: &Vec<(u64, Vec<u8>)>, i: usize) -> (r: (u64, Vec<u8>))
    requires
        i < es@.len(),
    ensures
        r.0 == es@[i as int].0,
        r.1@ == es@[i as int].1@,
{
    let k = es[i].0;
    let v = clone_bytes(&es[i].1);
    (k, v)
}

/// Byte-for-byte copy.
pub fn clone_bytes(v: &Vec<u8>) -> (r: Vec<u8>)
    ensures
        r@ == v@,
{
    let mut out: Vec<u8> = Vec::new();
    let n = v.len();
    let mut i: usize = 0;
    while i < n
        invariant
            n == v@.len(),
            i <= n,
            out@ == v@.take(i as int),
        decreases n - i,
    {
        out.push(v[i]);
        proof {
            assert(out@ =~= v@.take(i as int + 1));
        }
        i = i + 1;
    }
    proof {
        assert(v@.take(n as int) =~= v@);
    }
    out
}

/// Appends `v` to `out`.
pub fn append_bytes(out: &mut Vec<u8>, v: &Vec<u8>)
    ensures
        final(out)@ == old(out)@ + v@,
{
    let n = v.len();
    let mut i: usize = 0;
    while i < n
        invariant
            n == v@.len(),
            i <= n,
            out@ == old(out)@ + v@.take(i as int),
        decreases n - i,
    {
        out.push(v[i]);
        proof {
            assert(out@ =~= old(out)@ + v@.take(i as int + 1));
        }
        i = i + 1;
    }
    proof {
        assert(v@.take(n as int) =~= v@);
    }
}

/// Writes the comma-separated entries from `idx` on.
fn write_body(out: &mut Vec<u8>, es: &Vec<(u64, Vec<u8>)>, idx: usize)
    requires
        idx <= es@.len(),
    ensures
        final(out)@ == old(out)@ + body_bytes(
            entries_view(es@).subrange(idx as int, es@.len() as int),
        ),
    decreases es@.len() - idx,
{
    let ghost tail = entries_view(es@).subrange(idx as int, es@.len() as int);
    if idx == es.len() {
        proof {
            assert(out@ =~= old(out)@ + body_bytes(tail));
        }
        return ;
    }
    out.push(QUOTE);
    write_dec(out, es[idx].0);
    out.push(QUOTE);
    out.push(COLON);
    append_bytes(out, &es[idx].1);
    proof {
        assert(out@ =~= old(out)@ + entry_bytes(es@[idx as int].0, es@[idx as int].1@));
        assert(tail[0] == (es@[idx as int].0, es@[idx as int].1@));
    }
    if idx + 1 == es.len() {
        proof {
            assert(tail.len() == 1);
            assert(body_bytes(tail) == entry_bytes(tail[0].0, tail[0].1));
            assert(out@ =~= old(out)@ + body_bytes(tail));
        }
        return ;
    }
    out.push(COMMA);
    write_body(out, es, idx + 1);
    proof {
        assert(tail.drop_first() =~= entries_view(es@).subrange(idx as int + 1, es@.len() as int));
        assert(body_bytes(tail) == entry_bytes(tail[0].0, tail[0].1) + seq![COMMA] + body_bytes(
            tail.drop_first(),
        ));
        assert(out@ =~= old(out)@ + body_bytes(tail));
    }
}

// ------------------------------------------------------------------
// The parser, executable side.
// ------------------------------------------------------------------
/// Copies `s[from..to]`.
fn copy_range(s: &Vec<u8>, from: usize, to: usize) -> (r: Vec<u8>)
    requires
        from <= to <= s@.len(),
    ensures
        r@ == s@.subrange(from as int, to as int),
{
    let mut out: Vec<u8> = Vec::new();
    let mut i: usize = from;
    while i < to
        invariant
            from <= i <= to <= s@.len(),
            out@ == s@.subrange(from as int, i as int),
        decreases to - i,
    {
        out.push(s[i]);
        proof {
            assert(out@ =~= s@.subrange(from as int, i as int + 1));
        }
        i = i + 1;
    }
    out
}

/// Reads one `"key":value` pair at `i`, as `parse_entry` describes.
fn parse_entry_exec(s: &Vec<u8>, i: usize) -> (r: Option<((u64, Vec<u8>), usize)>)
    ensures
        match r {
            Some(ev) => parse_entry(s@, i as int) == Some(((ev.0.0, ev.0.1@), ev.1 as int)),
            None => parse_entry(s@, i as int) is None,
        },
{
    if i >= s.len() || s[i] != QUOTE {
        return None;
    }
    let (key, j) = match parse_key(s, i + 1) {
        Some(p) => p,
        None => {
            return None;
        },
    };
    if j == i + 1 {
        return None;
    }
    proof {
        lemma_key_scan_bounds(s@, i as int + 1, 0);
        assert(key_unit(s@, i as int + 1) is Some);
    }
    let first_value: u8;
    let first_end: usize;
    if 48 <= s[i + 1] && s[i + 1] <= 57 {
        first_value = s[i + 1] - 48;
        first_end = i + 2;
        proof {
            assert(key_unit(s@, i as int + 1) == Some((first_value, first_end as int)));
        }
    } else {
        proof {
            assert(i as int + 7 <= s@.len());
        }
        first_value = s[i + 6] - 48;
        first_end = i + 7;
        proof {
            assert(key_unit(s@, i as int + 1) == Some((first_value, first_end as int)));
        }
    }
    if first_value == 0 && j != first_end {
        return None;
    }
    if j >= s.len() || s[j] != QUOTE {
        return None;
    }
    let c = skip_ws_exec(s, j + 1);
    if c >= s.len() || s[c] != COLON {
        return None;
    }
    let w = skip_ws_exec(s, c + 1);
    if w >= s.len() || s[w] != LBRACE {
        return None;
    }
    let n = match scan_object(s, w + 1) {
        Some(n) => n,
        None => {
            return None;
        },
    };
    proof {
        lemma_scan_obj_bounds(s@, w as int + 1, 1, false, false);
    }
    let v = copy_range(s, w, n);
    Some(((key, v), n))
}

/// Reads the entry list from `i`, as `parse_entries` describes.
fn parse_entries_exec(s: &Vec<u8>, i: usize) -> (r: Option<(Vec<(u64, Vec<u8>)>, usize)>)
    requires
        i <= s@.len(),
    ensures
        match r {
            Some(p) => parse_entries(s@, i as int) == Some((entries_view(p.0@), p.1 as int)),
            None => parse_entries(s@, i as int) is None,
        },
    decreases s@.len() - i,
{
    let a = skip_ws_exec(s, i);
    let (head, j) = match parse_entry_exec(s, a) {
        Some(ev) => ev,
        None => {
            return None;
        },
    };
    proof {
        lemma_parse_entry_wf(s@, a as int);
    }
    let m = skip_ws_exec(s, j);
    if m >= s.len() {
        return None;
    }
    if s[m] == RBRACE {
        let mut es: Vec<(u64, Vec<u8>)> = Vec::new();
        es.push(head);
        proof {
            assert(entries_view(es@) =~= seq![(head.0, head.1@)]);
        }
        return Some((es, m));
    }
    if s[m] == COMMA && i < m {
        let (mut rest, end) = match parse_entries_exec(s, m + 1) {
            Some(p) => p,
            None => {
                return None;
            },
        };
        let ghost rest_view = entries_view(rest@);
        rest.insert(0, head);
        proof {
            assert(entries_view(rest@) =~= seq![(head.0, head.1@)] + rest_view);
        }
        return Some((rest, end));
    }
    None
}

/// A serialized entry embedded at `i` parses back to itself.
proof fn lemma_entry_round_trip(k: u64, v: Seq<u8>, s: Seq<u8>, i: int)
    requires
        token_wf(v),
        0 <= i,
        i + entry_bytes(k, v).len() <= s.len(),
        forall|m: int| 0 <= m < entry_bytes(k, v).len() ==> s[i + m] == #[trigger] entry_bytes(
            k,
            v,
        )[m],
    ensures
        parse_entry(s, i) == Some(((k, v), i + entry_bytes(k, v).len())),
{
    let e = entry_bytes(k, v);
    let d = dec_digits(k as nat);
    let len = d.len() as int;
    lemma_dec_digits_shape(k as nat);
    assert(e[0] == QUOTE);
    assert(e.len() == 3 + len + v.len());
    assert forall|m: int| 0 <= m < len implies e[1 + m] == d[m] by {}
    assert forall|m: int| 0 <= m < v.len() implies e[3 + len + m] == v[m] by {}
    assert(e[1 + len] == QUOTE);
    assert(e[2 + len] == COLON);
    assert(s[i] == QUOTE);
    assert(s[i + 1] == d[0]);
    assert(is_dec_digit(s[i + 1]));
    assert forall|m: int| 0 <= m < len implies s[i + 1 + m] == #[trigger] d[m] by {
        assert(s[i + (1 + m)] == e[1 + m]);
    }
    lemma_key_scan_digits(s, i + 1, 0, k as nat);
    lemma_acc_app_zero(k as nat);
    assert(s[i + 1 + len] == e[1 + len]);
    assert(!is_dec_digit(s[i + 1 + len]));
    assert(s[i + 1 + len] != BACKSLASH);
    assert(key_unit(s, i + 1 + len) is None);
    assert(key_scan(s, i + 1 + len, k as nat) == ((k as nat), i + 1 + len));
    let j = i + 1 + len;
    assert(key_scan(s, i + 1, 0) == ((k as nat), j));
    assert(j != i + 1);
    assert(key_unit(s, i + 1) == Some((((s[i + 1] - 48) as u8), i + 2)));
    assert((s[i + 1] - 48) as u8 == 0 ==> d[0] == 48);
    assert((s[i + 1] - 48) as u8 == 0 ==> k == 0 && len == 1 && j == i + 2);
    assert(s[j] == QUOTE);
    assert(s[j + 1] == e[2 + len] && s[j + 1] == COLON);
    assert(skip_ws(s, j + 1) == j + 1);
    assert(s[j + 2] == e[3 + len] && e[3 + len] == v[0]);
    assert(s[j + 2] == LBRACE);
    assert(skip_ws(s, j + 2) == j + 2);
    assert(j + 2 < s.len());
    assert forall|m: int| 0 <= m < v.len() implies s[j + 2 + m] == v[m] by {
        assert(s[i + (3 + len + m)] == e[3 + len + m]);
    }
    lemma_scan_obj_embed(v, s, j + 2, 1, 1, false, false);
    assert(scan_obj(s, j + 3, 1, false, false) == Some(j + 2 + v.len()));
    let n = j + 2 + v.len() as int;
    assert(s.subrange(j + 2, n) =~= v);
    assert(n == i + e.len());
}

/// A serialized entry list embedded at `i`, closed by the object's brace,
/// parses back to itself.
proof fn lemma_entries_round_trip(es: Seq<(u64, Seq<u8>)>, s: Seq<u8>, i: int)
    requires
        es.len() >= 1,
        entries_wf(es),
        0 <= i,
        i + body_bytes(es).len() < s.len(),
        forall|m: int| 0 <= m < body_bytes(es).len() ==> s[i + m] == #[trigger] body_bytes(es)[m],
        s[i + body_bytes(es).len()] == RBRACE,
    ensures
        parse_entries(s, i) == Some((es, i + body_bytes(es).len())),
    decreases es.len(),
{
    let body = body_bytes(es);
    let (k, v) = es[0];
    let e = entry_bytes(k, v);
    assert(token_wf(v));
    assert(e[0] == QUOTE);
    if es.len() == 1 {
        assert(body == e);
        assert(s[i] == body[0]);
        assert(skip_ws(s, i) == i);
        lemma_entry_round_trip(k, v, s, i);
        let j = i + e.len();
        assert(s[j] == RBRACE);
        assert(skip_ws(s, j) == j);
        assert(parse_entries(s, i) == Some((seq![(k, v)], j)));
        assert(seq![(k, v)] =~= es);
    } else {
        let rest = es.drop_first();
        let rest_body = body_bytes(rest);
        assert(body == e + seq![COMMA] + rest_body);
        assert forall|m: int| 0 <= m < e.len() implies s[i + m] == #[trigger] e[m] by {
            assert(body[m] == e[m]);
            assert(s[i + m] == body[m]);
        }
        assert(s[i] == body[0] && body[0] == e[0]);
        assert(skip_ws(s, i) == i);
        lemma_entry_round_trip(k, v, s, i);
        let j = i + e.len();
        assert(body[e.len() as int] == COMMA);
        assert(s[j] == COMMA);
        assert(skip_ws(s, j) == j);
        assert(entries_wf(rest)) by {
            assert(forall|m: int| 0 <= m < rest.len() ==> rest[m] == es[m + 1]);
        }
        assert forall|m: int| 0 <= m < rest_body.len() implies s[j + 1 + m] == #[trigger] rest_body[m] by {
            assert(body[e.len() + 1 + m] == rest_body[m]);
            assert(s[i + (e.len() + 1 + m)] == body[e.len() + 1 + m]);
        }
        assert(j + 1 + rest_body.len() == i + body.len());
        assert(s[j + 1 + rest_body.len()] == RBRACE);
        lemma_entries_round_trip(rest, s, j + 1);
        assert(parse_entries(s, j + 1) == Some((rest, j + 1 + rest_body.len())));
        assert(parse_entries(s, i) == Some((seq![(k, v)] + rest, i + body.len())));
        assert(seq![(k, v)] + rest =~= es);
    }
}

/// Folding a duplicate-free entry list into the empty map reproduces the
/// list.
pub proof fn lemma_upsert_all_identity(acc: Seq<(u64, Seq<u8>)>, es: Seq<(u64, Seq<u8>)>)
    requires
        keys_unique(acc + es),
    ensures
        upsert_all(acc, es) == acc + es,
    decreases es.len(),
{
    if es.len() == 0 {
        assert(acc + es =~= acc);
    } else {
        let (k, v) = es[0];
        assert(!has_key(acc, k)) by {
            assert forall|m: int| 0 <= m < acc.len() implies acc[m].0 != k by {
                assert((acc + es)[m] == acc[m]);
                assert((acc + es)[acc.len() as int] == es[0]);
            }
        }
        let acc2 = acc.push((k, v));
        assert(upsert(acc, k, v) == acc2);
        assert(acc2 + es.drop_first() =~= acc + es);
        lemma_upsert_all_identity(acc2, es.drop_first());
        assert(upsert_all(acc, es) == upsert_all(acc2, es.drop_first()));
        assert(acc2 + es.drop_first() == acc + es);
    }
}

/// Law: the bytes a store saves load back to the very same map. Loading the
/// serialized form of any duplicate-free, well-formed entry list parses to
/// that list, and folding it changes nothing, so every key returns the token
/// that was stored under it.
pub proof fn lemma_store_round_trip(es: Seq<(u64, Seq<u8>)>)
    requires
        keys_unique(es),
        entries_wf(es),
    ensures
        parse_store(store_bytes(es)) == Some(es),
        upsert_all(Seq::empty(), es) == es,
{
    let s = store_bytes(es);
    let body = body_bytes(es);
    assert(s[0] == LBRACE);
    assert(skip_ws(s, 0) == 0);
    assert(s.len() == 2 + body.len());
    assert(s[1 + body.len() as int] == RBRACE);
    if es.len() == 0 {
        assert(s.len() == 2);
        assert(s[1] == RBRACE);
        assert(skip_ws(s, 1) == 1);
        assert(skip_ws(s, 2) == 2);
        assert(parse_store(s) == Some(Seq::<(u64, Seq<u8>)>::empty()));
        assert(es =~= Seq::<(u64, Seq<u8>)>::empty());
    } else {
        assert(body.len() >= entry_bytes(es[0].0, es[0].1).len());
        assert(entry_bytes(es[0].0, es[0].1).len() >= 6) by {
            lemma_dec_digits_shape(es[0].0 as nat);
            assert(token_wf(es[0].1));
        }
        assert forall|m: int| 0 <= m < body.len() implies s[1 + m] == #[trigger] body[m] by {}
        assert(body[0] == QUOTE) by {
            let e0 = entry_bytes(es[0].0, es[0].1);
            if es.len() == 1 {
                assert(body == e0);
            } else {
                assert(body == e0 + seq![COMMA] + body_bytes(es.drop_first()));
                assert(body[0] == e0[0]);
            }
            assert(e0[0] == QUOTE);
        }
        assert(s[1] == body[0]);
        assert(skip_ws(s, 1) == 1);
        assert(s[1] != RBRACE);
        lemma_entries_round_trip(es, s, 1);
        let end = 1 + body.len() as int;
        assert(parse_entries(s, 1) == Some((es, end)));
        assert(end + 1 == s.len());
        assert(skip_ws(s, end + 1) == end + 1);
        assert(parse_store(s) == Some(es));
    }
    assert(Seq::<(u64, Seq<u8>)>::empty() + es =~= es);
    lemma_upsert_all_identity(Seq::empty(), es);
}

/// The default token file path, `./tokens.json`, as bytes.
pub open spec fn default_tokenfile_bytes() -> Seq<u8> {
    seq![46u8, 47u8, 116u8, 111u8, 107u8, 101u8, 110u8, 115u8, 46u8, 106u8, 115u8, 111u8, 110u8]
}

/// Assembles what the OAuth flow needs. Building the authenticator itself —
/// the HTTP client and the consent delegate — is the caller's side; the
/// library settles the path the token store persists to.
pub struct AuthenticatorFactory;

impl AuthenticatorFactory {
    /// The token file path: the configured one, or `./tokens.json` when the
    /// configuration leaves the field empty.
    pub fn tokenfile_path(c: &Config) -> (p: Vec<u8>)
        ensures
            c.tokenfile@.len() > 0 ==> p@ == c.tokenfile@,
            c.tokenfile@.len() == 0 ==> p@ == default_tokenfile_bytes(),
    {
        if c.tokenfile.len() > 0 {
            clone_bytes(&c.tokenfile)
        } else {
            let mut p: Vec<u8> = Vec::new();
            p.push(46);
            p.push(47);
            p.push(116);
            p.push(111);
            p.push(107);
            p.push(101);
            p.push(110);
            p.push(115);
            p.push(46);
            p.push(106);
            p.push(115);
            p.push(111);
            p.push(110);
            proof {
                assert(p@ =~= default_tokenfile_bytes());
            }
            p
        }
    }
}

/// Every token text a successful parse yields is one well-formed object, so
/// a loaded store can be saved again.
pub proof fn lemma_parse_entry_wf(s: Seq<u8>, i: int)
    requires
        parse_entry(s, i) is Some,
    ensures
        token_wf(parse_entry(s, i)->Some_0.0.1),
        i < parse_entry(s, i)->Some_0.1 <= s.len(),
{
    let (v, j) = key_scan(s, i + 1, 0);
    lemma_key_scan_bounds(s, i + 1, 0);
    let c = skip_ws(s, j + 1);
    lemma_skip_ws_bounds(s, j + 1);
    let w = skip_ws(s, c + 1);
    lemma_skip_ws_bounds(s, c + 1);
    let n = scan_obj(s, w + 1, 1, false, false)->Some_0;
    lemma_scan_obj_bounds(s, w + 1, 1, false, false);
    let tok = s.subrange(w, n);
    assert(tok.len() == n - w >= 2);
    assert(tok[0] == LBRACE);
    lemma_scan_obj_restrict(s, w, w + 1, 1, false, false);
    assert(scan_obj(tok, 1, 1, false, false) == Some(n - w));
}

/// A successful walk of `s` read only `s[base..n]`, so it succeeds unchanged
/// on that slice alone.
pub proof fn lemma_scan_obj_restrict(s: Seq<u8>, base: int, i: int, depth: int, in_str: bool, esc: bool)
    requires
        0 <= base <= i,
        scan_obj(s, i, depth, in_str, esc) is Some,
    ensures
        scan_obj(
            s.subrange(base, scan_obj(s, i, depth, in_str, esc)->Some_0),
            i - base,
            depth,
            in_str,
            esc,
        ) == Some(scan_obj(s, i, depth, in_str, esc)->Some_0 - base),
    decreases s.len() - i, 1int,
{
    lemma_scan_obj_bounds(s, i, depth, in_str, esc);
    let n = scan_obj(s, i, depth, in_str, esc)->Some_0;
    let v = s.subrange(base, n);
    assert(i < s.len());
    assert(v[i - base] == s[i]);
    let b = s[i];
    if in_str {
        if esc {
            lemma_scan_restrict_step(s, base, i, depth, true, false, n);
        } else if b == BACKSLASH {
            lemma_scan_restrict_step(s, base, i, depth, true, true, n);
        } else if b == QUOTE {
            lemma_scan_restrict_step(s, base, i, depth, false, false, n);
        } else {
            lemma_scan_restrict_step(s, base, i, depth, true, false, n);
        }
    } else {
        if b == QUOTE {
            lemma_scan_restrict_step(s, base, i, depth, true, false, n);
        } else if b == LBRACE {
            lemma_scan_restrict_step(s, base, i, depth + 1, false, false, n);
        } else if b == RBRACE {
            if depth <= 1 {
                assert(n == i + 1);
            } else {
                lemma_scan_restrict_step(s, base, i, depth - 1, false, false, n);
            }
        } else {
            lemma_scan_restrict_step(s, base, i, depth, false, false, n);
        }
    }
}

/// One step of `lemma_scan_obj_restrict`: the tail call seen from the slice.
proof fn lemma_scan_restrict_step(
    s: Seq<u8>,
    base: int,
    i: int,
    depth: int,
    in_str: bool,
    esc: bool,
    n: int,
)
    requires
        0 <= base <= i < s.len(),
        scan_obj(s, i + 1, depth, in_str, esc) == Some(n),
    ensures
        scan_obj(s.subrange(base, n), i + 1 - base, depth, in_str, esc) == Some(n - base),
    decreases s.len() - i, 0int,
{
    lemma_scan_obj_restrict(s, base, i + 1, depth, in_str, esc);
}

/// Every entry a successful list parse yields carries a well-formed token,
/// and the parse ends inside the text.
pub proof fn lemma_parse_entries_wf(s: Seq<u8>, i: int)
    requires
        parse_entries(s, i) is Some,
    ensures
        entries_wf(parse_entries(s, i)->Some_0.0),
        i < parse_entries(s, i)->Some_0.1 < s.len(),
    decreases s.len() - i,
{
    let a = skip_ws(s, i);
    let ((k, v), j) = parse_entry(s, a)->Some_0;
    lemma_parse_entry_wf(s, a);
    assert(0 <= i) by {
        if i < 0 {
            assert(skip_ws(s, i) == i);
        }
    }
    assert(i <= s.len()) by {
        if i > s.len() {
            assert(skip_ws(s, i) == i);
        }
    }
    lemma_skip_ws_bounds(s, i);
    let m = skip_ws(s, j);
    lemma_skip_ws_bounds(s, j);
    if s[m] == RBRACE {
        let es = parse_entries(s, i)->Some_0.0;
        assert(es == seq![(k, v)]);
        assert(es[0].1 == v);
        assert(forall|n: int| 0 <= n < es.len() ==> token_wf(#[trigger] es[n].1));
    } else {
        lemma_parse_entries_wf(s, m + 1);
        let rest = parse_entries(s, m + 1)->Some_0.0;
        let es = parse_entries(s, i)->Some_0.0;
        assert(es == seq![(k, v)] + rest);
        assert forall|n: int| 0 <= n < es.len() implies token_wf(#[trigger] es[n].1) by {
            if n == 0 {
                assert(es[0].1 == v);
            } else {
                assert(es[n].1 == rest[n - 1].1);
            }
        }
    }
}

} // verus!
