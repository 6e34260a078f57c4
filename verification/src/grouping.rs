//! Grouping files whose contents are identical, as the conflicting-file
//! report numbers them.
use vstd::prelude::*;
use crate::paths::{path_identity, path_key};
use crate::text::{contains_string, strings_of};

verus! {

/// `a` comes before `b` in the order of `Vec<u8>`'s `Ord`: byte by byte, a
/// proper prefix first.
pub open spec fn bytes_lt(a: Seq<u8>, b: Seq<u8>) -> bool
    decreases a.len(),
{
    if a.len() == 0 {
        b.len() > 0
    } else if b.len() == 0 {
        false
    } else if a[0] != b[0] {
        a[0] < b[0]
    } else {
        bytes_lt(a.drop_first(), b.drop_first())
    }
}

/// The contents that were read, in order.
pub open spec fn read_contents(cs: Seq<Option<Seq<u8>>>) -> Seq<Seq<u8>>
    decreases cs.len(),
{
    if cs.len() == 0 {
        Seq::empty()
    } else {
        let r = read_contents(cs.drop_last());
        match cs.last() {
            Some(b) => r.push(b),
            None => r,
        }
    }
}

/// The number of different contents among `s` that come before `b`.
pub open spec fn rank_below(s: Seq<Seq<u8>>, b: Seq<u8>) -> nat
    decreases s.len(),
{
    if s.len() == 0 {
        0
    } else {
        let x = s.last();
        rank_below(s.drop_last(), b) + if !s.drop_last().contains(x) && bytes_lt(x, b) {
            1nat
        } else {
            0nat
        }
    }
}

/// The number of different contents among `s`.
pub open spec fn distinct_count(s: Seq<Seq<u8>>) -> nat
    decreases s.len(),
{
    if s.len() == 0 {
        0
    } else {
        distinct_count(s.drop_last()) + if !s.drop_last().contains(s.last()) {
            1nat
        } else {
            0nat
        }
    }
}

/// The number of files among `cs` that could not be read.
pub open spec fn unread_count(cs: Seq<Option<Seq<u8>>>) -> nat
    decreases cs.len(),
{
    if cs.len() == 0 {
        0
    } else {
        unread_count(cs.drop_last()) + if cs.last() is None {
            1nat
        } else {
            0nat
        }
    }
}

/// The group of the file at `k`: files that were read are numbered by their
/// content, in the order of `Vec<u8>`, identical contents sharing a number;
/// the files that could not be read follow, one number each, in order.
pub open spec fn entry_group(cs: Seq<Option<Seq<u8>>>, k: int) -> nat {
    match cs[k] {
        Some(b) => rank_below(read_contents(cs), b),
        None => distinct_count(read_contents(cs)) + unread_count(cs.take(k)),
    }
}

/// The index of the last entry of `keys` equal to `key`, or `default` when
/// there is none.
pub open spec fn last_index(keys: Seq<Seq<char>>, key: Seq<char>, default: int) -> int
    decreases keys.len(),
{
    if keys.len() == 0 {
        default
    } else if keys.last() == key {
        keys.len() - 1
    } else {
        last_index(keys.drop_last(), key, default)
    }
}

/// The group of each file, kept per path: a file shares the group of the
/// last file with the same path.
pub open spec fn file_group(keys: Seq<Seq<char>>, cs: Seq<Option<Seq<u8>>>, k: int) -> nat {
    entry_group(cs, last_index(keys, keys[k], k))
}

/// The contents as sequences.
pub open spec fn contents_view(cs: Seq<Option<Vec<u8>>>) -> Seq<Option<Seq<u8>>> {
    cs.map_values(|c: Option<Vec<u8>>|
        match c {
            Some(v) => Some(v@),
            None => None,
        })
}

/// Comparing byte strings that have the first `i` bytes in common comes down
/// to comparing what follows them.
proof fn lemma_bytes_skip(a: Seq<u8>, b: Seq<u8>, i: int)
    requires
        0 <= i <= a.len(),
        i <= b.len(),
        a.take(i) == b.take(i),
    ensures
        bytes_lt(a, b) == bytes_lt(a.skip(i), b.skip(i)),
    decreases i,
{
    if i > 0 {
        assert(a[0] == a.take(i)[0]);
        assert(b[0] == b.take(i)[0]);
        assert(a.drop_first().take(i - 1) =~= a.take(i).drop_first());
        assert(b.drop_first().take(i - 1) =~= b.take(i).drop_first());
        lemma_bytes_skip(a.drop_first(), b.drop_first(), i - 1);
        assert(a.drop_first().skip(i - 1) =~= a.skip(i));
        assert(b.drop_first().skip(i - 1) =~= b.skip(i));
    } else {
        assert(a.skip(0) =~= a);
        assert(b.skip(0) =~= b);
    }
}

/// Whether `a` comes before `b` in the order of `Vec<u8>`.
pub fn bytes_less(a: &Vec<u8>, b: &Vec<u8>) -> (r: bool)
    ensures
        r == bytes_lt(a@, b@),
{
    let mut i: usize = 0;
    while i < a.len() && i < b.len()
        invariant
            0 <= i <= a@.len(),
            i <= b@.len(),
            a@.take(i as int) == b@.take(i as int),
        decreases a.len() - i,
    {
        if a[i] != b[i] {
            proof {
                lemma_bytes_skip(a@, b@, i as int);
                assert(a@.skip(i as int)[0] == a@[i as int]);
                assert(b@.skip(i as int)[0] == b@[i as int]);
            }
            return a[i] < b[i];
        }
        assert(a@.take(i + 1) =~= a@.take(i as int).push(a@[i as int]));
        assert(b@.take(i + 1) =~= b@.take(i as int).push(b@[i as int]));
        i += 1;
    }
    proof {
        lemma_bytes_skip(a@, b@, i as int);
    }
    i < b.len()
}

/// Whether two byte strings are equal.
pub fn bytes_equal(a: &Vec<u8>, b: &Vec<u8>) -> (r: bool)
    ensures
        r == (a@ == b@),
{
    if a.len() != b.len() {
        return false;
    }
    let mut i: usize = 0;
    while i < a.len()
        invariant
            a.len() == b.len(),
            0 <= i <= a.len(),
            forall|j: int| 0 <= j < i ==> a@[j] == b@[j],
        decreases a.len() - i,
    {
        if a[i] != b[i] {
            return false;
        }
        i += 1;
    }
    assert(a@ =~= b@);
    true
}

/// Whether `x` occurs among the first `n` byte strings of `s`.
fn occurs_before(s: &Vec<&Vec<u8>>, n: usize, x: &Vec<u8>) -> (r: bool)
    requires
        n <= s@.len(),
    ensures
        r == s@.take(n as int).map_values(|v: &Vec<u8>| v@).contains(x@),
{
    let ghost t = s@.take(n as int).map_values(|v: &Vec<u8>| v@);
    let mut i: usize = 0;
    while i < n
        invariant
            0 <= i <= n,
            n <= s@.len(),
            t == s@.take(n as int).map_values(|v: &Vec<u8>| v@),
            forall|j: int| 0 <= j < i ==> t[j] != x@,
        decreases n - i,
    {
        assert(t[i as int] == s@[i as int]@);
        if bytes_equal(s[i], x) {
            return true;
        }
        i += 1;
    }
    false
}

/// The contents that were read, as references, in order.
fn read_refs(contents: &Vec<Option<Vec<u8>>>) -> (r: Vec<&Vec<u8>>)
    ensures
        r@.map_values(|v: &Vec<u8>| v@) == read_contents(contents_view(contents@)),
{
    let ghost cv = contents_view(contents@);
    let mut r: Vec<&Vec<u8>> = Vec::new();
    let mut i: usize = 0;
    while i < contents.len()
        invariant
            0 <= i <= contents@.len(),
            cv == contents_view(contents@),
            r@.map_values(|v: &Vec<u8>| v@) == read_contents(cv.take(i as int)),
        decreases contents.len() - i,
    {
        proof {
            assert(cv.take(i + 1).drop_last() =~= cv.take(i as int));
            assert(cv.take(i + 1).last() == cv[i as int]);
        }
        let ghost before = r@.map_values(|v: &Vec<u8>| v@);
        match &contents[i] {
            Some(b) => {
                r.push(b);
                assert(r@.map_values(|v: &Vec<u8>| v@) =~= before.push(b@));
            },
            None => {},
        }
        i += 1;
    }
    assert(cv.take(contents@.len() as int) =~= cv);
    r
}

/// The number of different contents among `oks` that come before `b`
/// (all of them when `b` is `None`).
fn count_below(oks: &Vec<&Vec<u8>>, b: Option<&Vec<u8>>) -> (r: usize)
    ensures
        b matches Some(x) ==> r == rank_below(oks@.map_values(|v: &Vec<u8>| v@), x@),
        b is None ==> r == distinct_count(oks@.map_values(|v: &Vec<u8>| v@)),
{
    let ghost s = oks@.map_values(|v: &Vec<u8>| v@);
    let mut n: usize = 0;
    let mut i: usize = 0;
    while i < oks.len()
        invariant
            0 <= i <= oks@.len(),
            s == oks@.map_values(|v: &Vec<u8>| v@),
            n <= i,
            b matches Some(x) ==> n == rank_below(s.take(i as int), x@),
            b is None ==> n == distinct_count(s.take(i as int)),
        decreases oks.len() - i,
    {
        proof {
            assert(s.take(i + 1).drop_last() =~= s.take(i as int));
            assert(s.take(i + 1).last() == oks@[i as int]@);
            assert(oks@.take(i as int).map_values(|v: &Vec<u8>| v@) =~= s.take(i as int));
        }
        let fresh = !occurs_before(oks, i, oks[i]);
        let counts = match b {
            Some(x) => fresh && bytes_less(oks[i], x),
            None => fresh,
        };
        if counts {
            n += 1;
        }
        i += 1;
    }
    assert(s.take(oks@.len() as int) =~= s);
    n
}

/// The group of each file: `paths[k]` is the path of the k-th file and
/// `contents[k]` its content, or `None` when it could not be read. Files that
/// were read are numbered by content in the order of `Vec<u8>`, identical
/// contents sharing a number; each file that could not be read gets the next
/// number, in order. Files with the same path share the number of the last of them.
pub fn group_identical_files(paths: &Vec<String>, contents: &Vec<Option<Vec<u8>>>) -> (r: Vec<usize>)
    requires
        paths@.len() == contents@.len(),
    ensures
        r@.len() == contents@.len(),
        forall|k: int|
            0 <= k < r@.len() ==> #[trigger] r@[k] == file_group(
                strings_of(paths@).map_values(|p: Seq<char>| path_identity(p)),
                contents_view(contents@),
                k,
            ),
{
    let ghost cv = contents_view(contents@);
    let oks = read_refs(contents);
    let mut keys: Vec<String> = Vec::new();
    let mut i: usize = 0;
    while i < paths.len()
        invariant
            0 <= i <= paths@.len(),
            strings_of(keys@) == strings_of(paths@).take(i as int).map_values(|p: Seq<char>| path_identity(p)),
        decreases paths.len() - i,
    {
        let k = path_key(paths[i].as_str());
        let ghost before = keys@;
        keys.push(k);
        proof {
            crate::text::lemma_strings_push(before, k);
            assert(strings_of(paths@).take(i + 1).map_values(|p: Seq<char>| path_identity(p)) =~= strings_of(
                paths@,
            ).take(i as int).map_values(|p: Seq<char>| path_identity(p)).push(path_identity(paths@[i as int]@)));
        }
        i += 1;
    }
    let ghost ks = strings_of(paths@).map_values(|p: Seq<char>| path_identity(p));
    assert(strings_of(paths@).take(paths@.len() as int) =~= strings_of(paths@));
    assert(strings_of(keys@) == ks);
    let distinct = count_below(&oks, None);
    let mut own: Vec<usize> = Vec::new();
    let mut unread: usize = 0;
    let mut j: usize = 0;
    while j < contents.len()
        invariant
            0 <= j <= contents@.len(),
            cv == contents_view(contents@),
            own@.len() == j,
            unread == unread_count(cv.take(j as int)),
            unread <= j,
            oks@.map_values(|v: &Vec<u8>| v@) == read_contents(cv),
            distinct == distinct_count(read_contents(cv)),
            forall|k: int| 0 <= k < j ==> #[trigger] own@[k] == entry_group(cv, k),
        decreases contents.len() - j,
    {
        proof {
            assert(cv.take(j + 1).drop_last() =~= cv.take(j as int));
            assert(cv.take(j + 1).last() == cv[j as int]);
        }
        match &contents[j] {
            Some(b) => {
                let g = count_below(&oks, Some(b));
                assert(cv[j as int] == Some(b@));
                own.push(g);
            },
            None => {
                proof {
                    lemma_distinct_le(read_contents(cv));
                    lemma_read_unread(cv);
                    lemma_unread_take(cv, j as int);
                    assert(cv[j as int] is None);
                }
                own.push(distinct + unread);
                unread += 1;
            },
        }
        j += 1;
    }
    let mut r: Vec<usize> = Vec::new();
    let mut k: usize = 0;
    while k < contents.len()
        invariant
            0 <= k <= contents@.len(),
            paths@.len() == contents@.len(),
            own@.len() == contents@.len(),
            strings_of(keys@) == ks,
            ks.len() == contents@.len(),
            cv == contents_view(contents@),
            forall|t: int| 0 <= t < own@.len() ==> #[trigger] own@[t] == entry_group(cv, t),
            r@.len() == k,
            forall|t: int| 0 <= t < k ==> #[trigger] r@[t] == file_group(ks, cv, t),
        decreases contents.len() - k,
    {
        let last = last_index_of(&keys, k);
        r.push(own[last]);
        k += 1;
    }
    r
}

/// The index of the last entry of `keys` equal to `keys[k]`.
fn last_index_of(keys: &Vec<String>, k: usize) -> (r: usize)
    requires
        k < keys@.len(),
    ensures
        r as int == last_index(strings_of(keys@), keys@[k as int]@, k as int),
        r < keys@.len(),
{
    let ghost ks = strings_of(keys@);
    let ghost key = keys@[k as int]@;
    let mut i: usize = keys.len();
    proof {
        assert(ks.take(i as int) =~= ks);
    }
    loop
        invariant
            0 <= k < i <= keys@.len(),
            ks == strings_of(keys@),
            key == keys@[k as int]@,
            last_index(ks, key, k as int) == last_index(ks.take(i as int), key, k as int),
        decreases i,
    {
        let ghost t = ks.take(i as int);
        assert(t.last() == keys@[i - 1]@);
        if keys[i - 1] == keys[k] {
            return i - 1;
        }
        assert(t.drop_last() =~= ks.take(i - 1));
        i -= 1;
    }
}

/// Every file was either read or not.
proof fn lemma_read_unread(cs: Seq<Option<Seq<u8>>>)
    ensures
        read_contents(cs).len() + unread_count(cs) == cs.len(),
    decreases cs.len(),
{
    if cs.len() > 0 {
        lemma_read_unread(cs.drop_last());
    }
}

/// A prefix has no more unread files than the whole.
proof fn lemma_unread_take(cs: Seq<Option<Seq<u8>>>, j: int)
    requires
        0 <= j <= cs.len(),
    ensures
        unread_count(cs.take(j)) <= unread_count(cs),
    decreases cs.len(),
{
    if j < cs.len() {
        assert(cs.drop_last().take(j) =~= cs.take(j));
        lemma_unread_take(cs.drop_last(), j);
    } else {
        assert(cs.take(j) =~= cs);
    }
}

/// There are no more different contents than contents.
proof fn lemma_distinct_le(s: Seq<Seq<u8>>)
    ensures
        distinct_count(s) <= s.len(),
    decreases s.len(),
{
    if s.len() > 0 {
        lemma_distinct_le(s.drop_last());
    }
}

} // verus!

verus! {

proof fn lemma_bytes_irreflexive(a: Seq<u8>)
    ensures
        !bytes_lt(a, a),
    decreases a.len(),
{
    if a.len() > 0 {
        lemma_bytes_irreflexive(a.drop_first());
    }
}

proof fn lemma_bytes_total(a: Seq<u8>, b: Seq<u8>)
    ensures
        a != b ==> bytes_lt(a, b) || bytes_lt(b, a),
    decreases a.len(),
{
    if a.len() > 0 && b.len() > 0 && a[0] == b[0] {
        lemma_bytes_total(a.drop_first(), b.drop_first());
        if a.drop_first() == b.drop_first() {
            assert(a =~= seq![a[0]] + a.drop_first());
            assert(b =~= seq![b[0]] + b.drop_first());
        }
    } else if a.len() == 0 && b.len() == 0 {
        assert(a =~= b);
    }
}

proof fn lemma_bytes_transitive(a: Seq<u8>, b: Seq<u8>, c: Seq<u8>)
    requires
        bytes_lt(a, b),
        bytes_lt(b, c),
    ensures
        bytes_lt(a, c),
    decreases a.len(),
{
    if a.len() > 0 && b.len() > 0 && c.len() > 0 && a[0] == b[0] && b[0] == c[0] {
        lemma_bytes_transitive(a.drop_first(), b.drop_first(), c.drop_first());
    }
}

/// A content that comes after another has a greater rank, by at least one
/// when the smaller content occurs.
proof fn lemma_rank_grows(s: Seq<Seq<u8>>, x: Seq<u8>, y: Seq<u8>)
    requires
        bytes_lt(x, y),
    ensures
        rank_below(s, y) >= rank_below(s, x) + if s.contains(x) { 1int } else { 0int },
    decreases s.len(),
{
    if s.len() > 0 {
        let init = s.drop_last();
        let z = s.last();
        lemma_rank_grows(init, x, y);
        if bytes_lt(z, x) {
            lemma_bytes_transitive(z, x, y);
        }
        if z == x {
            lemma_bytes_irreflexive(x);
        }
        if init.contains(x) {
            let j = choose|j: int| 0 <= j < init.len() && init[j] == x;
            assert(s[j] == x);
        }
        if s.contains(x) && !init.contains(x) {
            let j = choose|j: int| 0 <= j < s.len() && s[j] == x;
            if j < init.len() {
                assert(init[j] == x);
            }
            assert(z == x);
        }
    }
}

/// A content that occurs has a rank below the number of different contents.
proof fn lemma_rank_below_distinct(s: Seq<Seq<u8>>, x: Seq<u8>)
    ensures
        rank_below(s, x) + if s.contains(x) { 1int } else { 0int } <= distinct_count(s),
    decreases s.len(),
{
    if s.len() > 0 {
        let init = s.drop_last();
        let z = s.last();
        lemma_rank_below_distinct(init, x);
        if z == x {
            lemma_bytes_irreflexive(x);
        }
        if init.contains(x) {
            let j = choose|j: int| 0 <= j < init.len() && init[j] == x;
            assert(s[j] == x);
        }
        if s.contains(x) && !init.contains(x) {
            let j = choose|j: int| 0 <= j < s.len() && s[j] == x;
            if j < init.len() {
                assert(init[j] == x);
            }
            assert(z == x);
        }
    }
}

/// Every content read is among the contents read.
proof fn lemma_read_contains(cs: Seq<Option<Seq<u8>>>, k: int)
    requires
        0 <= k < cs.len(),
        cs[k] is Some,
    ensures
        read_contents(cs).contains(cs[k]->0),
    decreases cs.len(),
{
    let init = cs.drop_last();
    if k < cs.len() - 1 {
        assert(init[k] == cs[k]);
        lemma_read_contains(init, k);
        let r = read_contents(init);
        let j = choose|j: int| 0 <= j < r.len() && r[j] == cs[k]->0;
        match cs.last() {
            Some(b) => {
                assert(r.push(b)[j] == cs[k]->0);
            },
            None => {},
        }
    } else {
        let r = read_contents(init);
        assert(r.push(cs[k]->0)[r.len() as int] == cs[k]->0);
    }
}

/// Two different files share a group exactly when both were read and their
/// contents are identical.
pub proof fn lemma_groups_identical(cs: Seq<Option<Seq<u8>>>, a: int, b: int)
    requires
        0 <= a < cs.len(),
        0 <= b < cs.len(),
        a != b,
    ensures
        entry_group(cs, a) == entry_group(cs, b) <==> (cs[a] is Some && cs[b] is Some && cs[a] == cs[b]),
{
    let s = read_contents(cs);
    match (cs[a], cs[b]) {
        (Some(x), Some(y)) => {
            if x != y {
                lemma_read_contains(cs, a);
                lemma_read_contains(cs, b);
                lemma_bytes_total(x, y);
                if bytes_lt(x, y) {
                    lemma_rank_grows(s, x, y);
                } else {
                    lemma_rank_grows(s, y, x);
                }
            }
        },
        (Some(x), None) => {
            lemma_read_contains(cs, a);
            lemma_rank_below_distinct(s, x);
        },
        (None, Some(y)) => {
            lemma_read_contains(cs, b);
            lemma_rank_below_distinct(s, y);
        },
        (None, None) => {
            let (lo, hi) = if a < b { (a, b) } else { (b, a) };
            assert(cs.take(lo + 1).drop_last() =~= cs.take(lo));
            assert(cs.take(lo + 1).last() == cs[lo]);
            assert(cs.take(hi).take(lo + 1) =~= cs.take(lo + 1));
            lemma_unread_take(cs.take(hi), lo + 1);
        },
    }
}

} // verus!

verus! {

/// The last index with a key that occurs is in range and has that key.
proof fn lemma_last_index(keys: Seq<Seq<char>>, j: int)
    requires
        0 <= j < keys.len(),
    ensures
        0 <= last_index(keys, keys[j], j) < keys.len(),
        keys[last_index(keys, keys[j], j)] == keys[j],
    decreases keys.len(),
{
    if keys.last() != keys[j] {
        assert(j < keys.len() - 1);
        let init = keys.drop_last();
        assert(init[j] == keys[j]);
        lemma_last_index(init, j);
    }
}

/// Where a key occurs, its last index does not depend on the default.
proof fn lemma_last_index_default(keys: Seq<Seq<char>>, j: int, d: int)
    requires
        0 <= j < keys.len(),
    ensures
        last_index(keys, keys[j], d) == last_index(keys, keys[j], j),
    decreases keys.len(),
{
    if keys.last() != keys[j] {
        let init = keys.drop_last();
        assert(init[j] == keys[j]);
        lemma_last_index_default(init, j, d);
    }
}

/// Two files share a group exactly when they have the same path, or when the
/// last files with their paths were both read and have identical contents.
pub proof fn lemma_file_groups(keys: Seq<Seq<char>>, cs: Seq<Option<Seq<u8>>>, j: int, k: int)
    requires
        keys.len() == cs.len(),
        0 <= j < keys.len(),
        0 <= k < keys.len(),
    ensures
        file_group(keys, cs, j) == file_group(keys, cs, k) <==> (keys[j] == keys[k] || ({
            let lj = last_index(keys, keys[j], j);
            let lk = last_index(keys, keys[k], k);
            cs[lj] is Some && cs[lk] is Some && cs[lj] == cs[lk]
        })),
{
    lemma_last_index(keys, j);
    lemma_last_index(keys, k);
    let lj = last_index(keys, keys[j], j);
    let lk = last_index(keys, keys[k], k);
    if keys[j] != keys[k] {
        lemma_groups_identical(cs, lj, lk);
    } else {
        lemma_last_index_default(keys, j, k);
    }
}

} // verus!
