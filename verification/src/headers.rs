//! The header mapping of a response: keys folded to ASCII lower case,
//! values trimmed, keys unique, lookup case-insensitive by construction.

use vstd::prelude::*;
use vstd::string::StringSliceAdditionalSpecFns;

use crate::ascii::{
    bytes_eq, find_byte, first_line, lemma_lower_idempotent, lemma_scan_to_bounds, lower_of,
    lower_slice, rest_lines, scan_to, split_first_line, trim_of, trim_slice,
};
use crate::errors::DownloadError;

verus! {

/// A case-insensitive header mapping. Its mathematical content is a map
/// from folded key bytes to value bytes.
pub struct HeaderMap {
    entries: Vec<(Vec<u8>, Vec<u8>)>,
}

/// The map an entry list denotes, later entries taking precedence.
pub closed spec fn entries_map(es: Seq<(Vec<u8>, Vec<u8>)>) -> Map<Seq<u8>, Seq<u8>>
    decreases es.len(),
{
    if es.len() == 0 {
        Map::empty()
    } else {
        entries_map(es.drop_last()).insert(es.last().0@, es.last().1@)
    }
}

/// Do the entries carry pairwise distinct keys?
spec fn distinct_keys(es: Seq<(Vec<u8>, Vec<u8>)>) -> bool {
    forall|i: int, j: int| 0 <= i < j < es.len() ==> es[i].0@ != es[j].0@
}

impl View for HeaderMap {
    type V = Map<Seq<u8>, Seq<u8>>;

    closed spec fn view(&self) -> Map<Seq<u8>, Seq<u8>> {
        entries_map(self.entries@)
    }
}

/// A key that occurs among entries with distinct keys resolves to its value.
proof fn lemma_entries_map_get(es: Seq<(Vec<u8>, Vec<u8>)>, i: int)
    requires
        0 <= i < es.len(),
        distinct_keys(es),
    ensures
        entries_map(es).contains_key(es[i].0@),
        entries_map(es)[es[i].0@] == es[i].1@,
    decreases es.len(),
{
    if i < es.len() - 1 {
        lemma_entries_map_get(es.drop_last(), i);
        assert(es[es.len() - 1].0@ != es[i].0@);
    }
}

/// A key that occurs in no entry is absent from the map.
proof fn lemma_entries_map_absent(es: Seq<(Vec<u8>, Vec<u8>)>, k: Seq<u8>)
    requires
        forall|i: int| 0 <= i < es.len() ==> es[i].0@ != k,
    ensures
        !entries_map(es).contains_key(k),
    decreases es.len(),
{
    if es.len() > 0 {
        lemma_entries_map_absent(es.drop_last(), k);
    }
}

/// Overwriting the entry that holds a key updates the map at that key.
proof fn lemma_entries_map_update(es: Seq<(Vec<u8>, Vec<u8>)>, i: int, p: (Vec<u8>, Vec<u8>))
    requires
        0 <= i < es.len(),
        distinct_keys(es),
        p.0@ == es[i].0@,
    ensures
        entries_map(es.update(i, p)) == entries_map(es).insert(p.0@, p.1@),
    decreases es.len(),
{
    let last = es.len() - 1;
    if i == last {
        assert(es.update(i, p).drop_last() =~= es.drop_last());
        assert(entries_map(es.update(i, p)) == entries_map(es.drop_last()).insert(p.0@, p.1@));
        assert(entries_map(es.drop_last()).insert(es.last().0@, es.last().1@).insert(p.0@, p.1@)
            =~= entries_map(es.drop_last()).insert(p.0@, p.1@));
    } else {
        lemma_entries_map_update(es.drop_last(), i, p);
        assert(es.update(i, p).drop_last() =~= es.drop_last().update(i, p));
        assert(es.update(i, p).last() == es.last());
        assert(entries_map(es.update(i, p)) == entries_map(es.drop_last()).insert(
            p.0@,
            p.1@,
        ).insert(es.last().0@, es.last().1@));
        assert(es.last().0@ != p.0@);
        assert(entries_map(es.drop_last()).insert(p.0@, p.1@).insert(es.last().0@, es.last().1@)
            =~= entries_map(es.drop_last()).insert(es.last().0@, es.last().1@).insert(
            p.0@,
            p.1@,
        ));
    }
}

impl HeaderMap {
    /// Well-formedness: entries carry pairwise distinct keys. Constructors
    /// establish it and methods preserve it.
    pub closed spec fn wf(&self) -> bool {
        distinct_keys(self.entries@)
    }

    /// The empty mapping.
    pub fn new() -> (r: HeaderMap)
        ensures
            r@ == Map::<Seq<u8>, Seq<u8>>::empty(),
            r.wf(),
    {
        HeaderMap { entries: Vec::new() }
    }

    /// How many distinct headers the mapping holds.
    pub fn len(&self) -> (r: usize)
        requires
            self.wf(),
        ensures
            r == self@.dom().len(),
    {
        proof {
            lemma_entries_map_len(self.entries@);
        }
        self.entries.len()
    }

    /// Record `value` under `key`, folding the key to ASCII lower case and
    /// replacing any entry the folded key already had.
    pub fn insert(&mut self, key: Vec<u8>, value: Vec<u8>)
        requires
            old(self).wf(),
        ensures
            final(self).wf(),
            final(self)@ == old(self)@.insert(lower_of(key@), value@),
    {
        let fk = lower_slice(key.as_slice());
        let n = self.entries.len();
        let mut i: usize = 0;
        while i < n
            invariant
                0 <= i <= n,
                n == self.entries@.len(),
                distinct_keys(self.entries@),
                entries_map(self.entries@) == old(self)@,
                fk@ == lower_of(key@),
                forall|j: int| 0 <= j < i ==> self.entries@[j].0@ != fk@,
            decreases n - i,
        {
            if bytes_eq(self.entries[i].0.as_slice(), fk.as_slice()) {
                proof {
                    lemma_entries_map_update(self.entries@, i as int, (fk, value));
                }
                self.entries[i] = (fk, value);
                return ;
            }
            i = i + 1;
        }
        proof {
            assert(self.entries@.push((fk, value)).drop_last() =~= self.entries@);
        }
        self.entries.push((fk, value));
    }

    /// Look `key` up, folding it to ASCII lower case first, so that keys
    /// agreeing up to case resolve identically.
    pub fn get(&self, key: &[u8]) -> (r: Option<&Vec<u8>>)
        requires
            self.wf(),
        ensures
            match r {
                Some(v) => self@.contains_key(lower_of(key@)) && v@ == self@[lower_of(key@)],
                None => !self@.contains_key(lower_of(key@)),
            },
            (match r {
                Some(v) => header_lookup(self@, key@) == Some(v@),
                None => header_lookup(self@, key@) is None,
            }),
    {
        let fk = lower_slice(key);
        let n = self.entries.len();
        let mut i: usize = 0;
        while i < n
            invariant
                0 <= i <= n,
                n == self.entries@.len(),
                distinct_keys(self.entries@),
                entries_map(self.entries@) == self@,
                fk@ == lower_of(key@),
                forall|j: int| 0 <= j < i ==> self.entries@[j].0@ != fk@,
            decreases n - i,
        {
            if bytes_eq(self.entries[i].0.as_slice(), fk.as_slice()) {
                proof {
                    lemma_entries_map_get(self.entries@, i as int);
                }
                return Some(&self.entries[i].1);
            }
            i = i + 1;
        }
        proof {
            lemma_entries_map_absent(self.entries@, fk@);
        }
        None
    }

    /// Is `key` (up to ASCII case) recorded?
    pub fn contains(&self, key: &[u8]) -> (r: bool)
        requires
            self.wf(),
        ensures
            r == self@.contains_key(lower_of(key@)),
    {
        self.get(key).is_some()
    }
}

/// Entries with distinct keys denote a map of their own cardinality.
proof fn lemma_entries_map_len(es: Seq<(Vec<u8>, Vec<u8>)>)
    requires
        distinct_keys(es),
    ensures
        entries_map(es).dom().finite(),
        entries_map(es).dom().len() == es.len(),
    decreases es.len(),
{
    if es.len() > 0 {
        lemma_entries_map_len(es.drop_last());
        lemma_entries_map_absent(es.drop_last(), es.last().0@);
    }
}

/// Where the first colon splits a line: the bytes before it.
pub open spec fn colon_key(l: Seq<u8>) -> Seq<u8> {
    l.take(scan_to(l, 58) as int)
}

/// Where the first colon splits a line: the bytes after it.
pub open spec fn colon_val(l: Seq<u8>) -> Seq<u8> {
    l.skip(scan_to(l, 58) as int + 1)
}

/// Does the line carry a colon at all?
pub open spec fn has_colon(l: Seq<u8>) -> bool {
    scan_to(l, 58) < l.len()
}

/// The header mapping a block of lines denotes. Lines are read in order up
/// to the first line that is blank after trimming; a line without a colon
/// is skipped; otherwise the key is the trimmed, case-folded bytes before
/// the first colon and the value the trimmed bytes after it, a later line
/// overriding an earlier one with the same folded key.
pub open spec fn header_map_of(s: Seq<u8>) -> Map<Seq<u8>, Seq<u8>>
    decreases s.len(),
{
    if s.len() == 0 {
        Map::empty()
    } else if trim_of(first_line(s)).len() == 0 {
        Map::empty()
    } else {
        let line = first_line(s);
        let m = header_map_of(rest_lines(s));
        if has_colon(line) {
            let k = lower_of(trim_of(colon_key(line)));
            if m.contains_key(k) {
                m
            } else {
                m.insert(k, trim_of(colon_val(line)))
            }
        } else {
            m
        }
    }
}

/// Build the header mapping of a block of header lines.
pub(crate) fn header_lines_map(b: &[u8]) -> (m: HeaderMap)
    ensures
        m.wf(),
        m@ == header_map_of(b@),
    decreases b@.len(),
{
    if b.len() == 0 {
        return HeaderMap::new();
    }
    let (line, rest) = split_first_line(b);
    let t = trim_slice(line);
    if t.len() == 0 {
        return HeaderMap::new();
    }
    proof {
        lemma_scan_to_bounds(b@, 10);
    }
    let mut m = header_lines_map(rest);
    let ci = find_byte(line, 58);
    if ci < line.len() {
        proof {
            lemma_scan_to_bounds(line@, 58);
        }
        let k0 = trim_slice(&line[0..ci]);
        let k = lower_slice(k0.as_slice());
        let v = trim_slice(&line[ci + 1..line.len()]);
        proof {
            assert(line@.subrange(0, ci as int) =~= colon_key(line@));
            assert(line@.subrange(ci as int + 1, line@.len() as int) =~= colon_val(line@));
        }
        if !m.contains(k.as_slice()) {
            proof {
                lemma_lower_idempotent(trim_of(colon_key(line@)));
            }
            m.insert(k, v);
        } else {
            proof {
                lemma_lower_idempotent(trim_of(colon_key(line@)));
            }
        }
    }
    m
}

/// Build the case-insensitive header mapping of a block of header text:
/// every line up to the first blank one, keys folded, values trimmed,
/// colon-less lines skipped. The block cannot fail to parse.
pub fn parse_headers(response: &str) -> (r: Result<HeaderMap, DownloadError>)
    ensures
        r matches Ok(m) && m.wf() && m@ == header_map_of(response.spec_bytes()),
{
    Ok(header_lines_map(response.as_bytes()))
}

/// What a lookup yields: the value under the folded key, if any.
pub open spec fn header_lookup(m: Map<Seq<u8>, Seq<u8>>, key: Seq<u8>) -> Option<Seq<u8>> {
    if m.contains_key(lower_of(key)) {
        Some(m[lower_of(key)])
    } else {
        None
    }
}

/// Header lookup is case-insensitive: two keys that agree once folded to
/// lower case resolve to the same entry of any header mapping.
pub proof fn lemma_lookup_case_insensitive(m: Map<Seq<u8>, Seq<u8>>, k1: Seq<u8>, k2: Seq<u8>)
    requires
        lower_of(k1) == lower_of(k2),
    ensures
        header_lookup(m, k1) == header_lookup(m, k2),
{
}

} // verus!
