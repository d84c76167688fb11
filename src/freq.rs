use vstd::prelude::*;
use itertools::Itertools;

verus! {

broadcast use vstd::seq_lib::group_to_multiset_ensures;

/// The sum of the weights of a frequency table.
pub open spec fn total_weight(f: Seq<(char, u64)>) -> int
    decreases f.len(),
{
    if f.len() == 0 {
        0
    } else {
        total_weight(f.drop_last()) + f.last().1
    }
}

/// The symbols that a frequency table has an entry for.
pub open spec fn freq_chars(f: Seq<(char, u64)>) -> Set<char> {
    Set::new(|c: char| exists|k: int| 0 <= k < f.len() && #[trigger] f[k].0 == c)
}

/// The table's symbols are strictly increasing.
pub open spec fn strictly_increasing(f: Seq<(char, u64)>) -> bool {
    forall|i: int, j: int| 0 <= i < j < f.len() ==> (#[trigger] f[i].0 as u32) < (#[trigger] f[j].0 as u32)
}

pub proof fn lemma_scalar_injective(a: char, b: char)
    ensures
        (a as u32) == (b as u32) ==> a == b,
{
}

proof fn lemma_take_next_contains(s: Seq<char>, i: int, ch: char)
    requires
        0 <= i < s.len(),
    ensures
        s.take(i + 1).contains(ch) <==> (s.take(i).contains(ch) || ch == s[i]),
{
    if s.take(i + 1).contains(ch) {
        let k = choose|k: int| 0 <= k < i + 1 && #[trigger] s.take(i + 1)[k] == ch;
        if k < i {
            assert(s.take(i)[k] == ch);
        }
    }
    if s.take(i).contains(ch) {
        let k = choose|k: int| 0 <= k < i && #[trigger] s.take(i)[k] == ch;
        assert(s.take(i + 1)[k] == ch);
    }
    if ch == s[i] {
        assert(s.take(i + 1)[i] == ch);
    }
}

/// `f` is the frequency table of `s`: one entry per distinct character of
/// `s`, in ascending order, each with its number of occurrences.
pub open spec fn is_frequency_table(f: Seq<(char, u64)>, s: Seq<char>) -> bool {
    &&& strictly_increasing(f)
    &&& forall|k: int| 0 <= k < f.len() ==> #[trigger] f[k].1 == s.to_multiset().count(f[k].0)
    &&& forall|c: char| s.contains(c) <==> #[trigger] freq_chars(f).contains(c)
}

/// Relies on itertools::Itertools::sorted: the characters of `s`, each as
/// often as it occurs there, in ascending order.
#[verifier::external_body]
fn sorted_chars(s: &str) -> (r: Vec<char>)
    ensures
        r@.to_multiset() == s@.to_multiset(),
        forall|i: int, j: int| 0 <= i <= j < r@.len() ==> (r@[i] as u32) <= (r@[j] as u32),
{
    s.chars().sorted().collect()
}

/// The frequency table of `text`: one entry per distinct character, with
/// the number of its occurrences, in ascending order of characters.
pub fn frequencies(text: &str) -> (r: Vec<(char, u64)>)
    ensures
        is_frequency_table(r@, text@),
        total_weight(r@) == text@.len(),
        text@.len() <= usize::MAX,
        r@.len() <= 0x110000,
{
    let sorted = sorted_chars(text);
    let mut r: Vec<(char, u64)> = Vec::new();
    let mut i: usize = 0;
    let n = sorted.len();
    while i < n
        invariant
            n == sorted@.len(),
            i <= sorted@.len(),
            forall|a: int, b: int| 0 <= a <= b < sorted@.len() ==> (sorted@[a] as u32) <= (sorted@[b] as u32),
            strictly_increasing(r@),
            forall|k: int| 0 <= k < r@.len() ==> #[trigger] r@[k].1 == sorted@.take(i as int).to_multiset().count(r@[k].0),
            forall|k: int| 0 <= k < r@.len() ==> #[trigger] r@[k].1 <= i,
            forall|c: char| sorted@.take(i as int).contains(c) <==> #[trigger] freq_chars(r@).contains(c),
            total_weight(r@) == i,
            i > 0 ==> r@.len() > 0 && r@.last().0 == sorted@[i - 1],
            i == 0 ==> r@.len() == 0,
            forall|k: int| 0 <= k < r@.len() ==> (#[trigger] r@[k].0 as u32) >= k,
        decreases sorted@.len() - i,
    {
        let c = sorted[i];
        let ghost old_r = r@;
        assert(sorted@.take(i + 1) =~= sorted@.take(i as int).push(c));
        if r.len() > 0 && r[r.len() - 1].0 == c {
            let last = r.len() - 1;
            let w = r[last].1;
            r.set(last, (c, w + 1));
            assert(r@.drop_last() =~= old_r.drop_last());
            assert forall|k: int| 0 <= k < r@.len() implies (#[trigger] r@[k].0 as u32) >= k by {
                assert(old_r[k].0 as u32 >= k);
            }
            assert forall|k: int| 0 <= k < r@.len() implies #[trigger] r@[k].1
                == sorted@.take(i + 1).to_multiset().count(r@[k].0) by {
                if k < last {
                    assert((old_r[k].0 as u32) < (old_r[last as int].0 as u32));
                }
            }
            assert forall|ch: char| sorted@.take(i + 1).contains(ch) <==> #[trigger] freq_chars(r@).contains(ch) by {
                if freq_chars(old_r).contains(ch) {
                    let k = choose|k: int| 0 <= k < old_r.len() && #[trigger] old_r[k].0 == ch;
                    assert(r@[k].0 == ch);
                }
                if freq_chars(r@).contains(ch) {
                    let k = choose|k: int| 0 <= k < r@.len() && #[trigger] r@[k].0 == ch;
                    assert(old_r[k].0 == ch);
                }
            }
        } else {
            if i > 0 {
                assert((sorted@[i - 1] as u32) <= (sorted@[i as int] as u32));
            }
            assert(!freq_chars(old_r).contains(c)) by {
                if freq_chars(old_r).contains(c) {
                    let k = choose|k: int| 0 <= k < old_r.len() && #[trigger] old_r[k].0 == c;
                    if k < old_r.len() - 1 {
                        assert((old_r[k].0 as u32) < (old_r[old_r.len() - 1].0 as u32));
                    }
                }
            }
            r.push((c, 1));
            proof {
                if old_r.len() > 0 {
                    assert((old_r[old_r.len() - 1].0 as u32) >= old_r.len() - 1);
                    lemma_scalar_injective(old_r[old_r.len() - 1].0, c);
                    assert((old_r[old_r.len() - 1].0 as u32) < (c as u32));
                }
                assert(r@[old_r.len() as int].0 == c);
                assert forall|k: int| 0 <= k < r@.len() implies (#[trigger] r@[k].0 as u32) >= k by {
                    if k < old_r.len() {
                        assert(old_r[k].0 as u32 >= k);
                    }
                }
            }
            assert(r@.drop_last() =~= old_r);
            assert forall|k: int| 0 <= k < r@.len() implies #[trigger] r@[k].1
                == sorted@.take(i + 1).to_multiset().count(r@[k].0) by {
                if k < old_r.len() {
                    if i > 0 {
                        assert((old_r[k].0 as u32) <= (old_r[old_r.len() - 1].0 as u32));
                    }
                }
            }
            assert forall|ch: char| sorted@.take(i + 1).contains(ch) <==> #[trigger] freq_chars(r@).contains(ch) by {
                lemma_take_next_contains(sorted@, i as int, ch);
                if freq_chars(old_r).contains(ch) {
                    let k = choose|k: int| 0 <= k < old_r.len() && #[trigger] old_r[k].0 == ch;
                    assert(r@[k].0 == ch);
                }
                if freq_chars(r@).contains(ch) {
                    let k = choose|k: int| 0 <= k < r@.len() && #[trigger] r@[k].0 == ch;
                    if k < old_r.len() {
                        assert(old_r[k].0 == ch);
                    }
                }
                if ch == c {
                    assert(r@[old_r.len() as int].0 == c);
                }
            }
        }
        i = i + 1;
    }
    assert(sorted@.take(i as int) =~= sorted@);
    proof {
        if r@.len() > 0 {
            assert((r@[r@.len() - 1].0 as u32) >= r@.len() - 1);
            vstd::utf8::char_is_scalar(r@[r@.len() - 1].0);
            assert((r@[r@.len() - 1].0 as u32) <= 0x10FFFF);
        }
    }
    assert(sorted@.to_multiset().len() == sorted@.len());
    assert(text@.to_multiset().len() == text@.len());
    assert forall|ch: char| text@.contains(ch) <==> sorted@.contains(ch) by {
        assert(text@.to_multiset().count(ch) == sorted@.to_multiset().count(ch));
    }
    r
}

} // verus!
