use vstd::prelude::*;

use crate::review::DiffCounts;
use vstd::string::StringSliceAdditionalSpecFns;

verus! {

/// A line of `b` starts at index `i`.
pub open spec fn line_starts_at(b: Seq<u8>, i: int) -> bool {
    0 <= i < b.len() && (i == 0 || b[i - 1] == 10)
}

/// `b` holds `p` from index `i` on.
pub open spec fn prefix_at(b: Seq<u8>, i: int, p: Seq<u8>) -> bool {
    0 <= i && i + p.len() <= b.len() && b.subrange(i, i + p.len()) == p
}

/// The bytes of `--- a/`, which open the header line of the old file.
pub open spec fn old_file_marker() -> Seq<u8> {
    seq![45u8, 45u8, 45u8, 32u8, 97u8, 47u8]
}

/// The bytes of `+++ b/`, which open the header line of the new file.
pub open spec fn new_file_marker() -> Seq<u8> {
    seq![43u8, 43u8, 43u8, 32u8, 98u8, 47u8]
}

/// The line starting at `i` is a file header line.
pub open spec fn file_header_at(b: Seq<u8>, i: int) -> bool {
    prefix_at(b, i, old_file_marker()) || prefix_at(b, i, new_file_marker())
}

/// The line starting at `i` begins with `mark` and is no file header.
pub open spec fn marked_line_at(b: Seq<u8>, i: int, mark: u8) -> bool {
    line_starts_at(b, i) && b[i] == mark && !file_header_at(b, i)
}

/// The lines that start before index `n`, begin with `mark` and are no file header.
pub open spec fn marked_lines_before(b: Seq<u8>, n: int, mark: u8) -> nat
    decreases n,
{
    if n <= 0 {
        0
    } else {
        marked_lines_before(b, n - 1, mark) + if marked_line_at(b, n - 1, mark) {
            1nat
        } else {
            0nat
        }
    }
}

/// The lines that `b` adds (they begin with `+`) and removes (they begin with
/// `-`), file headers left out.
pub open spec fn diff_counts(b: Seq<u8>) -> (nat, nat) {
    (marked_lines_before(b, b.len() as int, 43), marked_lines_before(b, b.len() as int, 45))
}

/// The line starting at `i` is at least seven bytes long and its seventh byte
/// continues a character, so its first six bytes do not end on a character boundary.
pub open spec fn cut_inside_char_at(b: Seq<u8>, i: int) -> bool {
    &&& line_starts_at(b, i)
    &&& i + 6 < b.len()
    &&& forall|k: int| i <= k < i + 6 ==> b[k] != 10
    &&& 0x80 <= b[i + 6] <= 0xbf
}

/// The first six bytes of every line that has them end on a character boundary.
pub open spec fn diff_sliceable(b: Seq<u8>) -> bool {
    forall|i: int| !#[trigger] cut_inside_char_at(b, i)
}

fn file_header(b: &[u8], i: usize) -> (r: bool)
    requires
        i < b@.len(),
    ensures
        r == file_header_at(b@, i as int),
{
    if b.len() - i < 6 {
        return false;
    }
    let old_marker = b[i] == 45 && b[i + 1] == 45 && b[i + 2] == 45 && b[i + 3] == 32 && b[i + 4]
        == 97 && b[i + 5] == 47;
    let new_marker = b[i] == 43 && b[i + 1] == 43 && b[i + 2] == 43 && b[i + 3] == 32 && b[i + 4]
        == 98 && b[i + 5] == 47;
    let ghost sub = b@.subrange(i as int, i + 6);
    assert(old_marker <==> sub =~= old_file_marker());
    assert(new_marker <==> sub =~= new_file_marker());
    old_marker || new_marker
}

/// The lines that a diff adds and removes: lines that begin with `+` or `-`,
/// leaving out the `--- a/` and `+++ b/` lines that name the files.
pub fn count_diff_lines(diff: &str) -> (r: DiffCounts)
    requires
        diff_sliceable(diff.spec_bytes()),
    ensures
        r.additions == diff_counts(diff.spec_bytes()).0,
        r.removals == diff_counts(diff.spec_bytes()).1,
{
    let b = diff.as_bytes();
    let mut additions: u64 = 0;
    let mut removals: u64 = 0;
    let mut i: usize = 0;
    while i < b.len()
        invariant
            0 <= i <= b@.len(),
            additions == marked_lines_before(b@, i as int, 43),
            removals == marked_lines_before(b@, i as int, 45),
            additions <= i,
            removals <= i,
        decreases b@.len() - i,
    {
        if i == 0 || b[i - 1] == 10 {
            if !file_header(b, i) {
                if b[i] == 43 {
                    additions = additions + 1;
                } else if b[i] == 45 {
                    removals = removals + 1;
                }
            }
        }
        i += 1;
    }
    DiffCounts { additions, removals }
}

/// Whether every line of the diff that is at least six bytes long has a
/// character boundary after its sixth byte.
pub fn diff_lines_sliceable(diff: &str) -> (r: bool)
    ensures
        r == diff_sliceable(diff.spec_bytes()),
{
    let b = diff.as_bytes();
    let mut i: usize = 0;
    while i < b.len()
        invariant
            0 <= i <= b@.len(),
            b@ == diff.spec_bytes(),
            forall|j: int| 0 <= j < i ==> !#[trigger] cut_inside_char_at(b@, j),
        decreases b@.len() - i,
    {
        if (i == 0 || b[i - 1] == 10) && b.len() - i > 6 {
            let mut k: usize = i;
            let end: usize = i + 6;
            let mut newline = false;
            while k < end
                invariant
                    i <= k <= end,
                    end == i + 6,
                    end < b@.len(),
                    newline <==> exists|q: int| i <= q < k && b@[q] == 10,
                decreases end - k,
            {
                if b[k] == 10 {
                    newline = true;
                }
                k += 1;
            }
            if !newline && b[end] >= 0x80 && b[end] <= 0xbf {
                assert(cut_inside_char_at(b@, i as int));
                return false;
            }
        }
        i += 1;
    }
    assert forall|j: int| !#[trigger] cut_inside_char_at(b@, j) by {
        if 0 <= j < b@.len() {
        }
    }
    true
}

proof fn lemma_marked_left(a: Seq<u8>, c: Seq<u8>, mark: u8, i: int)
    requires
        0 <= i < a.len(),
    ensures
        marked_line_at(a + seq![10u8] + c, i, mark) == marked_line_at(a, i, mark),
{
    let full = a + seq![10u8] + c;
    assert(full[i] == a[i]);
    if i > 0 {
        assert(full[i - 1] == a[i - 1]);
    }
    if i + 6 <= a.len() {
        assert(full.subrange(i, i + 6) =~= a.subrange(i, i + 6));
    } else if i + 6 <= full.len() {
        let n = a.len() as int;
        assert(full.subrange(i, i + 6)[n - i] == 10);
        assert(old_file_marker()[n - i] != 10);
        assert(new_file_marker()[n - i] != 10);
    }
}

proof fn lemma_marked_right(a: Seq<u8>, c: Seq<u8>, mark: u8, j: int)
    requires
        0 <= j < c.len(),
    ensures
        marked_line_at(a + seq![10u8] + c, a.len() + 1 + j, mark) == marked_line_at(c, j, mark),
{
    let full = a + seq![10u8] + c;
    let n = a.len() as int;
    assert(full[n + 1 + j] == c[j]);
    assert(full[n + j] == if j == 0 {
        10u8
    } else {
        c[j - 1]
    });
    if j + 6 <= c.len() {
        assert(full.subrange(n + 1 + j, n + 1 + j + 6) =~= c.subrange(j, j + 6));
    }
}

proof fn lemma_count_left(a: Seq<u8>, c: Seq<u8>, mark: u8, k: int)
    requires
        0 <= k <= a.len(),
    ensures
        marked_lines_before(a + seq![10u8] + c, k, mark) == marked_lines_before(a, k, mark),
    decreases k,
{
    if k > 0 {
        lemma_count_left(a, c, mark, k - 1);
        lemma_marked_left(a, c, mark, k - 1);
    }
}

proof fn lemma_count_right(a: Seq<u8>, c: Seq<u8>, mark: u8, k: int)
    requires
        0 <= k <= c.len(),
        mark != 10,
    ensures
        marked_lines_before(a + seq![10u8] + c, a.len() + 1 + k, mark) == marked_lines_before(
            a,
            a.len() as int,
            mark,
        ) + marked_lines_before(c, k, mark),
    decreases k,
{
    let full = a + seq![10u8] + c;
    if k == 0 {
        lemma_count_left(a, c, mark, a.len() as int);
        assert(full[a.len() as int] == 10);
    } else {
        lemma_count_right(a, c, mark, k - 1);
        lemma_marked_right(a, c, mark, k - 1);
    }
}

/// Lines are counted one by one: the counts of two diffs joined by a line
/// break are the sums of their counts.
pub proof fn lemma_diff_counts_concat(a: Seq<u8>, c: Seq<u8>)
    ensures
        diff_counts(a + seq![10u8] + c).0 == diff_counts(a).0 + diff_counts(c).0,
        diff_counts(a + seq![10u8] + c).1 == diff_counts(a).1 + diff_counts(c).1,
{
    let full = a + seq![10u8] + c;
    assert(full.len() == a.len() + 1 + c.len());
    lemma_count_right(a, c, 43, c.len() as int);
    lemma_count_right(a, c, 45, c.len() as int);
}

proof fn lemma_no_more_line_starts(b: Seq<u8>, mark: u8, n: int)
    requires
        1 <= n <= b.len(),
        forall|i: int| 0 <= i < b.len() ==> b[i] != 10,
    ensures
        marked_lines_before(b, n, mark) == marked_lines_before(b, 1, mark),
    decreases n,
{
    if n > 1 {
        lemma_no_more_line_starts(b, mark, n - 1);
        assert(!line_starts_at(b, n - 1)) by {
            assert(b[n - 2] != 10);
        }
    }
}

/// A single line counts as one added line exactly when it begins with `+`
/// and its first six bytes are not `+++ b/`, and as one removed line exactly
/// when it begins with `-` and its first six bytes are not `--- a/`; any
/// other line counts as neither. (With `lemma_diff_counts_concat` this fixes
/// the counts of every diff, line by line.)
pub proof fn lemma_one_line_counts(b: Seq<u8>)
    requires
        forall|i: int| 0 <= i < b.len() ==> b[i] != 10,
    ensures
        diff_counts(b).0 == if b.len() > 0 && b[0] == 43 && !(b.len() >= 6 && b[1] == 43 && b[2]
            == 43 && b[3] == 32 && b[4] == 98 && b[5] == 47) {
            1nat
        } else {
            0nat
        },
        diff_counts(b).1 == if b.len() > 0 && b[0] == 45 && !(b.len() >= 6 && b[1] == 45 && b[2]
            == 45 && b[3] == 32 && b[4] == 97 && b[5] == 47) {
            1nat
        } else {
            0nat
        },
{
    if b.len() > 0 {
        lemma_no_more_line_starts(b, 43, b.len() as int);
        lemma_no_more_line_starts(b, 45, b.len() as int);
        assert(marked_lines_before(b, 0, 43) == 0);
        assert(marked_lines_before(b, 0, 45) == 0);
        assert(line_starts_at(b, 0));
        if b.len() >= 6 {
            let sub = b.subrange(0, 6);
            assert(prefix_at(b, 0, old_file_marker()) <==> (b[0] == 45 && b[1] == 45 && b[2] == 45
                && b[3] == 32 && b[4] == 97 && b[5] == 47)) by {
                if b[0] == 45 && b[1] == 45 && b[2] == 45 && b[3] == 32 && b[4] == 97 && b[5] == 47 {
                    assert(sub =~= old_file_marker());
                }
                if prefix_at(b, 0, old_file_marker()) {
                    assert(sub[0] == 45 && sub[1] == 45 && sub[2] == 45 && sub[3] == 32 && sub[4]
                        == 97 && sub[5] == 47);
                }
            }
            assert(prefix_at(b, 0, new_file_marker()) <==> (b[0] == 43 && b[1] == 43 && b[2] == 43
                && b[3] == 32 && b[4] == 98 && b[5] == 47)) by {
                if b[0] == 43 && b[1] == 43 && b[2] == 43 && b[3] == 32 && b[4] == 98 && b[5] == 47 {
                    assert(sub =~= new_file_marker());
                }
                if prefix_at(b, 0, new_file_marker()) {
                    assert(sub[0] == 43 && sub[1] == 43 && sub[2] == 43 && sub[3] == 32 && sub[4]
                        == 98 && sub[5] == 47);
                }
            }
        } else {
            assert(!prefix_at(b, 0, old_file_marker()));
            assert(!prefix_at(b, 0, new_file_marker()));
        }
    }
}

/// A single line can be cut after its sixth byte unless it is longer than six
/// bytes and its seventh byte continues a character; lines are judged one by
/// one, so two texts joined by a line break can be cut exactly when both can.
pub proof fn lemma_sliceable_lines(a: Seq<u8>, c: Seq<u8>)
    requires
        forall|i: int| 0 <= i < a.len() ==> a[i] != 10,
    ensures
        diff_sliceable(a) <==> !(a.len() > 6 && 0x80 <= a[6] <= 0xbf),
        diff_sliceable(a + seq![10u8] + c) <==> diff_sliceable(a) && diff_sliceable(c),
{
    if a.len() > 6 && 0x80 <= a[6] <= 0xbf {
        assert(cut_inside_char_at(a, 0));
    } else {
        assert forall|i: int| !#[trigger] cut_inside_char_at(a, i) by {
            if line_starts_at(a, i) && i > 0 {
                assert(a[i - 1] != 10);
            }
        }
    }
    let full = a + seq![10u8] + c;
    let n = a.len() as int;
    if diff_sliceable(a) && diff_sliceable(c) {
        assert forall|i: int| !#[trigger] cut_inside_char_at(full, i) by {
            if cut_inside_char_at(full, i) {
                if i < n {
                    if i + 6 < n {
                        assert(cut_inside_char_at(a, i)) by {
                            if i > 0 {
                                assert(full[i - 1] == a[i - 1]);
                            }
                            assert forall|k: int| i <= k < i + 6 implies a[k] != 10 by {
                                assert(full[k] == a[k]);
                            }
                            assert(full[i + 6] == a[i + 6]);
                        }
                    } else {
                        assert(full[n] == 10);
                    }
                } else if i == n {
                    assert(full[n] == 10);
                } else {
                    let j = i - n - 1;
                    assert(cut_inside_char_at(c, j)) by {
                        assert(full[i] == c[j]);
                        if j > 0 {
                            assert(full[i - 1] == c[j - 1]);
                        }
                        assert forall|k: int| j <= k < j + 6 implies c[k] != 10 by {
                            assert(full[k + n + 1] == c[k]);
                        }
                        assert(full[i + 6] == c[j + 6]);
                    }
                }
            }
        }
    }
    if !diff_sliceable(a) {
        assert(cut_inside_char_at(a, 0));
        assert(cut_inside_char_at(full, 0)) by {
            assert forall|k: int| 0 <= k < 6 implies full[k] != 10 by {
                assert(full[k] == a[k]);
            }
            assert(full[6] == a[6]);
        }
    }
    if !diff_sliceable(c) {
        let j = choose|j: int| cut_inside_char_at(c, j);
        let i = j + n + 1;
        assert(cut_inside_char_at(full, i)) by {
            assert(full[i] == c[j]);
            if j > 0 {
                assert(full[i - 1] == c[j - 1]);
            } else {
                assert(full[i - 1] == 10);
            }
            assert forall|k: int| i <= k < i + 6 implies full[k] != 10 by {
                assert(full[k] == c[k - n - 1]);
            }
            assert(full[i + 6] == c[j + 6]);
        }
    }
}

} // verus!
