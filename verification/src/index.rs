//! The cache index: the process-wide mapping from a stream's source URL to
//! the relative path of its cached artifact.  The index is a sequence of
//! rows with unique keys, viewed as a map; it loads from and persists to a
//! JSON object of string keys and string values.

use vstd::prelude::*;
use crate::codec::bytes_eq;

verus! {

/// One row: the source URL and the artifact path relative to the cache
/// root.
pub type Row = (Seq<char>, Seq<char>);

/// The first row holding the key `k`, or -1 when no row does.
pub open spec fn find_key(rows: Seq<Row>, k: Seq<char>) -> int
    decreases rows.len(),
{
    if rows.len() == 0 {
        -1
    } else if rows[0].0 == k {
        0
    } else {
        let r = find_key(rows.drop_first(), k);
        if r == -1 {
            -1
        } else {
            1 + r
        }
    }
}

/// Where `find_key` points, and what its failure means.
pub proof fn lemma_find_key(rows: Seq<Row>, k: Seq<char>)
    ensures
        find_key(rows, k) == -1 ==> forall|i: int| 0 <= i < rows.len() ==> (#[trigger] rows[i]).0
            != k,
        find_key(rows, k) != -1 ==> 0 <= find_key(rows, k) < rows.len() && rows[
            find_key(rows, k)
        ].0 == k,
        find_key(rows, k) != -1 ==> forall|i: int|
            0 <= i < find_key(rows, k) ==> (#[trigger] rows[i]).0 != k,
    decreases rows.len(),
{
    if rows.len() != 0 && rows[0].0 != k {
        lemma_find_key(rows.drop_first(), k);
        assert forall|i: int| 1 <= i < rows.len() implies rows.drop_first()[i - 1] == rows[i] by {}
    }
}

/// `find_key` sees only the keys: rows with the same keys give the same
/// positions.
pub proof fn lemma_find_key_same_keys(a: Seq<Row>, b: Seq<Row>, k: Seq<char>)
    requires
        a.len() == b.len(),
        forall|i: int| 0 <= i < a.len() ==> (#[trigger] a[i]).0 == (#[trigger] b[i]).0,
    ensures
        find_key(a, k) == find_key(b, k),
    decreases a.len(),
{
    if a.len() != 0 {
        lemma_find_key_same_keys(a.drop_first(), b.drop_first(), k);
    }
}

/// Appending a row moves `find_key` only for that row's key, and only when
/// it was absent.
pub proof fn lemma_find_key_push(rows: Seq<Row>, k: Seq<char>, v: Seq<char>, k2: Seq<char>)
    ensures
        find_key(rows, k2) != -1 ==> find_key(rows.push((k, v)), k2) == find_key(rows, k2),
        find_key(rows, k2) == -1 && k2 == k ==> find_key(rows.push((k, v)), k2) == rows.len(),
        find_key(rows, k2) == -1 && k2 != k ==> find_key(rows.push((k, v)), k2) == -1,
    decreases rows.len(),
{
    if rows.len() == 0 {
        assert(rows.push((k, v)).len() == 1 && rows.push((k, v))[0] == (k, v));
        assert(rows.push((k, v)).drop_first() =~= Seq::<Row>::empty());
        assert(find_key(rows.push((k, v)).drop_first(), k2) == -1);
    } else {
        lemma_find_key_push(rows.drop_first(), k, v, k2);
        let p = rows.push((k, v));
        assert(p.drop_first() =~= rows.drop_first().push((k, v)));
        assert(p[0] == rows[0]);
        assert(p.len() == rows.len() + 1);
        if rows[0].0 == k2 {
            assert(find_key(rows, k2) == 0);
            assert(find_key(p, k2) == 0);
        } else {
            assert(find_key(p, k2) == (if find_key(p.drop_first(), k2) == -1 {
                -1int
            } else {
                1 + find_key(p.drop_first(), k2)
            }));
            assert(find_key(rows, k2) == (if find_key(rows.drop_first(), k2) == -1 {
                -1int
            } else {
                1 + find_key(rows.drop_first(), k2)
            }));
            assert(p.drop_first() == rows.drop_first().push((k, v)));
            lemma_find_key(rows.drop_first(), k2);
            if find_key(rows, k2) == -1 {
                assert(find_key(rows.drop_first(), k2) == -1);
                if k2 == k {
                    assert(find_key(rows.drop_first().push((k, v)), k2) == rows.drop_first().len());
                    assert(find_key(p, k2) == rows.len());
                } else {
                    assert(find_key(rows.drop_first().push((k, v)), k2) == -1);
                    assert(find_key(p, k2) == -1);
                }
            }
        }
    }
}

/// The rows, unique keys: no key appears twice.
pub open spec fn wf_rows(rows: Seq<Row>) -> bool {
    forall|i: int, j: int|
        0 <= i < j < rows.len() ==> (#[trigger] rows[i]).0 != (#[trigger] rows[j]).0
}

/// Rows as the map they stand for.
pub open spec fn as_map(rows: Seq<Row>) -> Map<Seq<char>, Seq<char>> {
    Map::new(|k: Seq<char>| find_key(rows, k) != -1, |k: Seq<char>| rows[find_key(rows, k)].1)
}

/// What one insertion does to the rows: replace the first row with that
/// key, or append a new row.
pub open spec fn spec_insert_rows(rows: Seq<Row>, k: Seq<char>, v: Seq<char>) -> Seq<Row> {
    if find_key(rows, k) == -1 {
        rows.push((k, v))
    } else {
        rows.update(find_key(rows, k), (k, v))
    }
}

/// Inserting keeps keys unique and acts on the map as `Map::insert`.
pub proof fn lemma_insert_rows(rows: Seq<Row>, k: Seq<char>, v: Seq<char>)
    requires
        wf_rows(rows),
    ensures
        wf_rows(spec_insert_rows(rows, k, v)),
        as_map(spec_insert_rows(rows, k, v)) == as_map(rows).insert(k, v),
{
    let rows2 = spec_insert_rows(rows, k, v);
    let i = find_key(rows, k);
    lemma_find_key(rows, k);
    if i == -1 {
        assert forall|k2: Seq<char>| true implies find_key(rows2, k2) == (if k2 == k {
            rows.len() as int
        } else {
            find_key(rows, k2)
        }) by {
            lemma_find_key_push(rows, k, v, k2);
            lemma_find_key(rows, k2);
            if find_key(rows, k2) != -1 {
                assert(k2 != k);
            }
        }
        assert forall|i2: int, j2: int| 0 <= i2 < j2 < rows2.len() implies (#[trigger] rows2[i2]).0
            != (#[trigger] rows2[j2]).0 by {
            if j2 == rows.len() {
                assert(rows2[j2].0 == k && rows2[i2].0 == rows[i2].0);
            }
        }
        assert(as_map(rows2) =~= as_map(rows).insert(k, v)) by {
            assert forall|k2: Seq<char>| find_key(rows2, k2) != -1 implies as_map(rows2)[k2]
                == as_map(rows).insert(k, v)[k2] by {
                lemma_find_key(rows2, k2);
            }
        }
    } else {
        assert forall|k2: Seq<char>| true implies find_key(rows2, k2) == find_key(rows, k2) by {
            lemma_find_key_same_keys(rows, rows2, k2);
        }
        assert(wf_rows(rows2));
        assert(as_map(rows2) =~= as_map(rows).insert(k, v)) by {
            assert forall|k2: Seq<char>| find_key(rows2, k2) != -1 implies as_map(rows2)[k2]
                == as_map(rows).insert(k, v)[k2] by {
                lemma_find_key(rows2, k2);
                lemma_find_key(rows, k2);
                if k2 != k {
                    assert(find_key(rows, k2) != i);
                }
            }
        }
    }
}

/// Inserting the same row twice leaves the same rows as inserting it once:
/// the second insertion replaces the row with itself.
pub proof fn lemma_insert_rows_idempotent(rows: Seq<Row>, k: Seq<char>, v: Seq<char>)
    ensures
        spec_insert_rows(spec_insert_rows(rows, k, v), k, v) == spec_insert_rows(rows, k, v),
{
    let rows2 = spec_insert_rows(rows, k, v);
    let i = find_key(rows, k);
    lemma_find_key(rows, k);
    if i == -1 {
        lemma_find_key_push(rows, k, v, k);
        assert(find_key(rows2, k) == rows.len());
        assert(rows2.update(rows.len() as int, (k, v)) =~= rows2);
    } else {
        lemma_find_key_same_keys(rows, rows2, k);
        assert(find_key(rows2, k) == i);
        assert(rows2.update(i, (k, v)) =~= rows2);
    }
}

/// Two competing inserts of the same key converge to one mapping: whichever
/// lands last wins, and the first leaves no second entry behind.
pub proof fn lemma_concurrent_inserts_converge(
    m: Map<Seq<char>, Seq<char>>,
    k: Seq<char>,
    p1: Seq<char>,
    p2: Seq<char>,
)
    ensures
        m.insert(k, p1).insert(k, p2) == m.insert(k, p2),
{
    assert(m.insert(k, p1).insert(k, p2) =~= m.insert(k, p2));
}

/// Text equality through the bytes.
pub fn str_eq(a: &str, b: &str) -> (r: bool)
    ensures
        r == (a@ == b@),
{
    let r = bytes_eq(a.as_bytes(), b.as_bytes());
    proof {
        vstd::utf8::encode_utf8_decode_utf8(a@);
        vstd::utf8::encode_utf8_decode_utf8(b@);
    }
    r
}

/// The in-memory cache index: rows of source URL and relative artifact
/// path, with unique URLs.
pub struct TrackCache {
    entries: Vec<(String, String)>,
}

impl View for TrackCache {
    type V = Map<Seq<char>, Seq<char>>;

    open spec fn view(&self) -> Map<Seq<char>, Seq<char>> {
        as_map(self.rows())
    }
}

impl TrackCache {
    /// The rows this index holds, in order.
    pub closed spec fn rows(&self) -> Seq<Row> {
        self.entries@.map_values(|p: (String, String)| (p.0@, p.1@))
    }

    /// The index is well formed: every source URL maps to one path.
    pub open spec fn wf(&self) -> bool {
        wf_rows(self.rows())
    }

    /// An empty index: the cache starts cold.
    pub fn new() -> (r: TrackCache)
        ensures
            r.wf(),
            r@ == Map::<Seq<char>, Seq<char>>::empty(),
            r.rows() =~= Seq::<Row>::empty(),
    {
        let c = TrackCache { entries: Vec::new() };
        proof {
            assert(c.rows() =~= Seq::<Row>::empty());
            assert(c@ =~= Map::<Seq<char>, Seq<char>>::empty());
        }
        c
    }

    /// How many entries the index holds.
    pub fn len(&self) -> (n: usize)
        ensures
            n == self.rows().len(),
    {
        self.entries.len()
    }

    /// The first row holding this URL, if any.
    fn find_idx(&self, uri: &str) -> (r: Option<usize>)
        ensures
            match r {
                Some(i) => find_key(self.rows(), uri@) == i && i < self.entries@.len(),
                None => find_key(self.rows(), uri@) == -1,
            },
    {
        let n = self.entries.len();
        let mut i: usize = 0;
        while i < n
            invariant
                n == self.entries@.len(),
                i <= n,
                forall|j: int| 0 <= j < i ==> (#[trigger] self.rows()[j]).0 != uri@,
            decreases n - i,
        {
            let hit = str_eq(self.entries[i].0.as_str(), uri);
            if hit {
                proof {
                    lemma_find_key(self.rows(), uri@);
                    if find_key(self.rows(), uri@) == -1 {
                        assert(self.rows()[i as int].0 == uri@);
                        assert(false);
                    }
                    if find_key(self.rows(), uri@) < i {
                        assert(false);
                    }
                    if find_key(self.rows(), uri@) > i {
                        assert(self.rows()[i as int].0 != uri@);
                        assert(false);
                    }
                }
                return Some(i);
            }
            i = i + 1;
        }
        proof {
            lemma_find_key(self.rows(), uri@);
            if find_key(self.rows(), uri@) != -1 {
                assert(self.rows()[find_key(self.rows(), uri@)].0 == uri@);
                assert(false);
            }
        }
        None
    }

    /// Look a source URL up: the relative artifact path cached for it, or
    /// `None` exactly when the URL was never inserted.  A miss is not an
    /// error, and nothing is mutated.
    pub fn get(&self, uri: &str) -> (r: Option<String>)
        ensures
            r is Some <==> self@.contains_key(uri@),
            r is Some ==> r.unwrap()@ == self@[uri@],
            r is None <==> find_key(self.rows(), uri@) == -1,
    {
        match self.find_idx(uri) {
            Some(i) => {
                proof {
                    lemma_find_key(self.rows(), uri@);
                }
                Some(self.entries[i].1.clone())
            },
            None => None,
        }
    }

    /// Insert a mapping, overwriting any prior path for that URL.  The URL
    /// keeps exactly one entry, and the map gains exactly this pair.
    pub fn insert(&mut self, uri: String, path: String)
        requires
            old(self).wf(),
        ensures
            final(self).wf(),
            final(self)@ == old(self)@.insert(uri@, path@),
            final(self).rows() == spec_insert_rows(old(self).rows(), uri@, path@),
    {
        proof {
            lemma_find_key(self.rows(), uri@);
            lemma_insert_rows(self.rows(), uri@, path@);
        }
        let ghost before = self.rows();
        match self.find_idx(uri.as_str()) {
            Some(i) => {
                self.entries.set(i, (uri, path));
                proof {
                    assert(self.rows() =~= spec_insert_rows(before, uri@, path@));
                }
            },
            None => {
                self.entries.push((uri, path));
                proof {
                    assert(self.rows() =~= before.push((uri@, path@)));
                    assert(self.rows() =~= spec_insert_rows(before, uri@, path@));
                }
            },
        }
    }
}

} // verus!
