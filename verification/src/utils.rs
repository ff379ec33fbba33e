//! Preparing a raw list of edges.

use vstd::prelude::*;
use vstd::string::StrSliceExecFns;
use vstd::utf8::encode_utf8;
use vstd::hash_map::StringHashMap;

verus! {

/// A pair of labels as the contracts see it.
pub type Pair = (Seq<char>, Seq<char>);

/// The lexicographic order of byte strings: at the first position where
/// the two differ the smaller byte decides, and a proper prefix comes before
/// the longer string.
pub open spec fn bytes_precede(a: Seq<u8>, b: Seq<u8>) -> bool
    decreases a.len(),
{
    if b.len() == 0 {
        false
    } else if a.len() == 0 {
        true
    } else if a[0] != b[0] {
        a[0] < b[0]
    } else {
        bytes_precede(a.skip(1), b.skip(1))
    }
}

/// The order of labels: the lexicographic order of their UTF-8 bytes.
pub open spec fn precedes(a: Seq<char>, b: Seq<char>) -> bool {
    bytes_precede(encode_utf8(a), encode_utf8(b))
}

/// An edge with its endpoints in order: the smaller label first.
pub open spec fn ordered(p: Pair) -> Pair {
    if precedes(p.0, p.1) {
        p
    } else {
        (p.1, p.0)
    }
}

/// The edges of `s` with their endpoints in order, each kept where it first
/// occurs.
pub open spec fn cleaned(s: Seq<Pair>) -> Seq<Pair>
    decreases s.len(),
{
    if s.len() == 0 {
        Seq::empty()
    } else {
        let head = cleaned(s.drop_last());
        let edge = ordered(s.last());
        if head.contains(edge) {
            head
        } else {
            head.push(edge)
        }
    }
}

/// The pairs of strings as pairs of their views.
pub open spec fn pairs_view(v: Seq<(String, String)>) -> Seq<Pair> {
    Seq::new(v.len(), |i: int| (v[i].0@, v[i].1@))
}

/// Whether `a` comes before `b` in the order of labels.
fn string_lt(a: &String, b: &String) -> (less: bool)
    ensures
        less == precedes(a@, b@),
{
    let x = a.as_str().as_bytes();
    let y = b.as_str().as_bytes();
    let mut k: usize = 0;
    proof {
        assert(x@.skip(0) =~= x@);
        assert(y@.skip(0) =~= y@);
    }
    while k < x.len() && k < y.len()
        invariant
            k <= x@.len(),
            k <= y@.len(),
            x@ == encode_utf8(a@),
            y@ == encode_utf8(b@),
            bytes_precede(x@, y@) == bytes_precede(x@.skip(k as int), y@.skip(k as int)),
        decreases x@.len() - k,
    {
        proof {
            assert(x@.skip(k as int)[0] == x@[k as int]);
            assert(y@.skip(k as int)[0] == y@[k as int]);
            assert(x@.skip(k as int).skip(1) =~= x@.skip(k as int + 1));
            assert(y@.skip(k as int).skip(1) =~= y@.skip(k as int + 1));
        }
        if x[k] != y[k] {
            return x[k] < y[k];
        }
        k = k + 1;
    }
    k < y.len()
}

/// `row` holds a string that reads `b`.
spec fn row_lists(row: Seq<String>, b: Seq<char>) -> bool {
    exists|q: int| 0 <= q < row.len() && (#[trigger] row[q])@ == b
}

/// Whether `row` holds a string equal to `b`.
fn holds_label(row: &Vec<String>, b: &String) -> (found: bool)
    ensures
        found == row_lists(row@, b@),
{
    let mut k: usize = 0;
    while k < row.len()
        invariant
            k <= row@.len(),
            forall|q: int| 0 <= q < k ==> (#[trigger] row@[q])@ != b@,
        decreases row@.len() - k,
    {
        if row[k] == *b {
            return true;
        }
        k = k + 1;
    }
    false
}

/// What has been kept so far, for looking an edge up by its first label:
/// `index` numbers the first labels, and row `index[a]` holds the second
/// labels that were kept with `a`.
spec fn seen(index: Map<Seq<char>, usize>, rows: Seq<Vec<String>>, kept: Seq<Pair>) -> bool {
    &&& forall|a: Seq<char>| #[trigger] index.contains_key(a) ==> index[a] < rows.len()
    &&& forall|a: Seq<char>, b: Seq<char>|
        index.contains_key(a) && index.contains_key(b) && #[trigger] index[a] == #[trigger] index[b]
            ==> a == b
    &&& forall|a: Seq<char>, b: Seq<char>| #[trigger]
        kept.contains((a, b)) <==> index.contains_key(a) && row_lists(rows[index[a] as int]@, b)
}

/// Removes duplicate edges. Each edge is first put in order, the smaller
/// label first, so that the two directions of one edge count as one; of
/// equal edges the first stays, and the order of what stays is kept.
pub fn clean_dataset(edges: Vec<(String, String)>) -> (unique_edges: Vec<(String, String)>)
    ensures
        pairs_view(unique_edges@) == cleaned(pairs_view(edges@)),
{
    let mut unique: Vec<(String, String)> = Vec::new();
    let mut index: StringHashMap<usize> = StringHashMap::new();
    let mut rows: Vec<Vec<String>> = Vec::new();
    let mut i: usize = 0;
    proof {
        assert(pairs_view(edges@).take(0) =~= Seq::<Pair>::empty());
        assert(pairs_view(unique@) =~= Seq::<Pair>::empty());
    }
    while i < edges.len()
        invariant
            i <= edges@.len(),
            pairs_view(unique@) == cleaned(pairs_view(edges@).take(i as int)),
            seen(index@, rows@, pairs_view(unique@)),
        decreases edges@.len() - i,
    {
        let flip: bool = !string_lt(&edges[i].0, &edges[i].1);
        let a: &String = if flip {
            &edges[i].1
        } else {
            &edges[i].0
        };
        let b: &String = if flip {
            &edges[i].0
        } else {
            &edges[i].1
        };
        let ghost kept = pairs_view(unique@);
        let ghost upto = pairs_view(edges@).take(i as int + 1);
        let ghost old_index = index@;
        let ghost old_rows = rows@;
        proof {
            assert(upto.drop_last() =~= pairs_view(edges@).take(i as int));
            assert(ordered(upto.last()) == (a@, b@));
        }
        let at = index.get(a.as_str());
        let known: bool = match at {
            Some(r) => holds_label(&rows[*r], b),
            None => false,
        };
        proof {
            assert(known == kept.contains((a@, b@)));
        }
        if !known {
            let r: usize = match at {
                Some(r) => *r,
                None => rows.len(),
            };
            if at.is_none() {
                index.insert(a.clone(), r);
                rows.push(Vec::new());
            }
            let ghost mid_rows = rows@;
            rows[r].push(b.clone());
            unique.push((a.clone(), b.clone()));
            proof {
                let now = pairs_view(unique@);
                assert(now =~= kept.push((a@, b@)));
                assert(rows@[r as int]@ == mid_rows[r as int]@.push(rows@[r as int]@.last()));
                assert(rows@[r as int]@.last()@ == b@);
                assert forall|x: Seq<char>, y: Seq<char>| #[trigger]
                    now.contains((x, y)) <==> index@.contains_key(x) && row_lists(
                        rows@[index@[x] as int]@,
                        y,
                    ) by {
                    vstd::seq_lib::lemma_seq_contains_after_push(kept, (a@, b@), (x, y));
                    assert(kept.contains((x, y)) <==> old_index.contains_key(x) && row_lists(
                        old_rows[old_index[x] as int]@,
                        y,
                    ));
                    if index@.contains_key(x) {
                        let rx = index@[x] as int;
                        let row = rows@[rx]@;
                        if x == a@ {
                            let was = mid_rows[rx]@;
                            if row_lists(row, y) {
                                let q = choose|q: int| 0 <= q < row.len() && (#[trigger] row[q])@ == y;
                                if q < was.len() {
                                    assert(was[q]@ == y);
                                    assert(row_lists(was, y));
                                }
                            }
                            if row_lists(was, y) {
                                let q = choose|q: int| 0 <= q < was.len() && (#[trigger] was[q])@ == y;
                                assert(row[q]@ == y);
                            }
                            if y == b@ {
                                assert(row[row.len() - 1]@ == y);
                            }
                            if old_index.contains_key(x) {
                                assert(was == old_rows[rx]@);
                            } else {
                                assert(was =~= Seq::<String>::empty());
                                assert(!row_lists(was, y));
                            }
                        } else {
                            assert(old_index.contains_key(x));
                            assert(rx != r);
                            assert(rows@[rx] == old_rows[rx]);
                        }
                    }
                }
            }
        }
        i = i + 1;
    }
    proof {
        assert(pairs_view(edges@).take(edges@.len() as int) =~= pairs_view(edges@));
    }
    unique
}

/// The characters that separate words: those with Unicode's White_Space
/// property.
pub open spec fn is_space(c: char) -> bool {
    let n = c as u32;
    ||| 0x09 <= n <= 0x0d
    ||| n == 0x20
    ||| n == 0x85
    ||| n == 0xa0
    ||| n == 0x1680
    ||| 0x2000 <= n <= 0x200a
    ||| n == 0x2028
    ||| n == 0x2029
    ||| n == 0x202f
    ||| n == 0x205f
    ||| n == 0x3000
}

/// The words of `s`: its longest runs of characters that are no spaces, in
/// their order.
pub open spec fn words(s: Seq<char>) -> Seq<Seq<char>>
    decreases s.len(),
{
    if s.len() == 0 {
        Seq::empty()
    } else {
        let before = words(s.drop_last());
        if is_space(s.last()) {
            before
        } else if s.len() >= 2 && !is_space(s[s.len() - 2]) {
            before.drop_last().push(before.last().push(s.last()))
        } else {
            before.push(Seq::empty().push(s.last()))
        }
    }
}

/// The edge that a line of text describes: its two words, if it has exactly
/// two.
pub open spec fn edge_of(line: Seq<char>) -> Option<Pair> {
    let w = words(line);
    if w.len() == 2 {
        Some((w[0], w[1]))
    } else {
        None
    }
}

/// Whether `c` separates words.
fn is_white(c: char) -> (white: bool)
    ensures
        white == is_space(c),
{
    let n: u32 = c as u32;
    (0x09 <= n && n <= 0x0d) || n == 0x20 || n == 0x85 || n == 0xa0 || n == 0x1680 || (0x2000 <= n
        && n <= 0x200a) || n == 0x2028 || n == 0x2029 || n == 0x202f || n == 0x205f || n == 0x3000
}

/// Reads one line of an edge list. A line of exactly two words, separated
/// and surrounded by any white space, gives the edge between them; any
/// other line gives nothing.
pub fn parse_edge(line: &str) -> (edge: Option<(String, String)>)
    ensures
        match edge {
            Some(e) => edge_of(line@) == Some((e.0@, e.1@)),
            None => edge_of(line@).is_none(),
        },
{
    let n: usize = line.unicode_len();
    let mut i: usize = 0;
    let mut count: usize = 0;
    let mut in_word: bool = false;
    let mut first: (usize, usize) = (0, 0);
    let mut second: (usize, usize) = (0, 0);
    proof {
        assert(line@.take(0) =~= Seq::<char>::empty());
    }
    while i < n
        invariant
            n == line@.len(),
            i <= n,
            count == words(line@.take(i as int)).len(),
            count <= i,
            in_word == (i > 0 && !is_space(line@[i - 1])),
            in_word ==> count >= 1,
            count >= 1 ==> first.0 <= first.1 <= i && words(line@.take(i as int))[0]
                == line@.subrange(first.0 as int, first.1 as int),
            count >= 2 ==> second.0 <= second.1 <= i && words(line@.take(i as int))[1]
                == line@.subrange(second.0 as int, second.1 as int),
            in_word && count == 1 ==> first.1 == i,
            in_word && count == 2 ==> second.1 == i,
        decreases n - i,
    {
        let c: char = line.get_char(i);
        let ghost before = words(line@.take(i as int));
        proof {
            let upto = line@.take(i as int + 1);
            assert(upto.drop_last() =~= line@.take(i as int));
            assert(upto.last() == c);
            if i > 0 {
                assert(upto[upto.len() - 2] == line@[i - 1]);
            }
        }
        if is_white(c) {
            in_word = false;
        } else {
            if !in_word {
                count = count + 1;
                if count == 1 {
                    first = (i, i + 1);
                } else if count == 2 {
                    second = (i, i + 1);
                }
                proof {
                    assert(Seq::<char>::empty().push(c) =~= line@.subrange(i as int, i + 1));
                }
            } else {
                proof {
                    if count == 1 {
                        assert(line@.subrange(first.0 as int, i as int).push(c)
                            =~= line@.subrange(first.0 as int, i + 1));
                    } else if count == 2 {
                        assert(line@.subrange(second.0 as int, i as int).push(c)
                            =~= line@.subrange(second.0 as int, i + 1));
                    }
                }
                if count == 1 {
                    first = (first.0, i + 1);
                } else if count == 2 {
                    second = (second.0, i + 1);
                }
            }
            in_word = true;
        }
        i = i + 1;
    }
    proof {
        assert(line@.take(n as int) =~= line@);
    }
    if count == 2 {
        let a = line.substring_char(first.0, first.1).to_owned();
        let b = line.substring_char(second.0, second.1).to_owned();
        Some((a, b))
    } else {
        None
    }
}

} // verus!
