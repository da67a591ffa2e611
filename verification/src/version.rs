use vstd::prelude::*;

verus! {

/// An identifier of a pre-release: a number, or text.
pub enum PreId {
    Num(u64),
    Alpha(Seq<char>),
}

/// A semantic version `major.minor.patch[-pre][+build]`; build metadata plays no
/// part in precedence and is not kept.
pub struct SemVerModel {
    pub major: u64,
    pub minor: u64,
    pub patch: u64,
    pub pre: Seq<PreId>,
}

pub open spec fn is_digit(c: char) -> bool {
    '0' <= c && c <= '9'
}

pub open spec fn is_ident_char(c: char) -> bool {
    is_digit(c) || ('a' <= c && c <= 'z') || ('A' <= c && c <= 'Z') || c == '-'
}

pub open spec fn all_digits(s: Seq<char>) -> bool {
    forall|i: int| 0 <= i < s.len() ==> #[trigger] is_digit(s[i])
}

pub open spec fn all_ident_chars(s: Seq<char>) -> bool {
    forall|i: int| 0 <= i < s.len() ==> #[trigger] is_ident_char(s[i])
}

pub open spec fn digit_value(c: char) -> int {
    c as int - '0' as int
}

/// The value of a string of digits read digit by digit, while it fits in a `u64`.
pub open spec fn bounded_value(s: Seq<char>) -> Option<u64>
    decreases s.len(),
{
    if s.len() == 0 {
        Some(0u64)
    } else {
        match bounded_value(s.drop_last()) {
            Some(v) => if v * 10 + digit_value(s.last()) <= u64::MAX {
                Some((v * 10 + digit_value(s.last())) as u64)
            } else {
                None
            },
            None => None,
        }
    }
}

/// A numeric component: digits without a leading zero (but `0` itself),
/// whose value fits in a `u64`.
pub open spec fn numeric_part(s: Seq<char>) -> Option<u64> {
    if s.len() > 0 && all_digits(s) && (s.len() == 1 || s[0] != '0') {
        bounded_value(s)
    } else {
        None
    }
}

/// The index of the first `c` in `s`, or its length where there is none.
pub open spec fn first_index(s: Seq<char>, c: char) -> int
    decreases s.len(),
{
    if s.len() == 0 {
        0
    } else {
        let f = first_index(s.drop_last(), c);
        if f < s.len() - 1 {
            f
        } else if s.last() == c {
            s.len() - 1
        } else {
            s.len() as int
        }
    }
}

/// `s` cut at every `sep`.
pub open spec fn split(s: Seq<char>, sep: char) -> Seq<Seq<char>>
    decreases s.len(),
{
    if s.len() == 0 {
        seq![Seq::empty()]
    } else {
        let parts = split(s.drop_last(), sep);
        if s.last() == sep {
            parts.push(Seq::empty())
        } else {
            parts.update(parts.len() - 1, parts.last().push(s.last()))
        }
    }
}

/// A pre-release identifier: alphanumerics and hyphens, and a number when it
/// is all digits (then without a leading zero).
pub open spec fn pre_ident(s: Seq<char>) -> Option<PreId> {
    if s.len() > 0 && all_ident_chars(s) {
        if all_digits(s) {
            match numeric_part(s) {
                Some(v) => Some(PreId::Num(v)),
                None => None,
            }
        } else {
            Some(PreId::Alpha(s))
        }
    } else {
        None
    }
}

pub open spec fn pre_idents(parts: Seq<Seq<char>>) -> Option<Seq<PreId>>
    decreases parts.len(),
{
    if parts.len() == 0 {
        Some(Seq::empty())
    } else {
        match (pre_idents(parts.drop_last()), pre_ident(parts.last())) {
            (Some(ids), Some(id)) => Some(ids.push(id)),
            _ => None,
        }
    }
}

/// Build metadata: non-empty identifiers of alphanumerics and hyphens.
pub open spec fn build_valid(parts: Seq<Seq<char>>) -> bool {
    forall|i: int|
        0 <= i < parts.len() ==> (#[trigger] parts[i]).len() > 0 && all_ident_chars(parts[i])
}

/// The semantic version that `s` spells, if it spells one.
pub open spec fn parse_semver(s: Seq<char>) -> Option<SemVerModel> {
    let plus = first_index(s, '+');
    let main = s.take(plus);
    let build_ok = plus == s.len() || build_valid(split(s.skip(plus + 1), '.'));
    let dash = first_index(main, '-');
    let nums = split(main.take(dash), '.');
    let pre = if dash == main.len() {
        Some(Seq::<PreId>::empty())
    } else {
        pre_idents(split(main.skip(dash + 1), '.'))
    };
    if build_ok && nums.len() == 3 && numeric_part(nums[0]) is Some && numeric_part(
        nums[1],
    ) is Some && numeric_part(nums[2]) is Some && pre is Some {
        Some(
            SemVerModel {
                major: numeric_part(nums[0])->Some_0,
                minor: numeric_part(nums[1])->Some_0,
                patch: numeric_part(nums[2])->Some_0,
                pre: pre->Some_0,
            },
        )
    } else {
        None
    }
}

/// `a` comes before `b` character by character (by code point), a proper
/// prefix first.
pub open spec fn chars_less(a: Seq<char>, b: Seq<char>) -> bool
    decreases a.len(),
{
    if a.len() == 0 {
        b.len() > 0
    } else if b.len() == 0 {
        false
    } else if a[0] != b[0] {
        a[0] < b[0]
    } else {
        chars_less(a.drop_first(), b.drop_first())
    }
}

/// Numbers come before text; numbers compare by value, text by characters.
pub open spec fn ident_less(a: PreId, b: PreId) -> bool {
    match (a, b) {
        (PreId::Num(x), PreId::Num(y)) => x < y,
        (PreId::Num(_), PreId::Alpha(_)) => true,
        (PreId::Alpha(_), PreId::Num(_)) => false,
        (PreId::Alpha(x), PreId::Alpha(y)) => chars_less(x, y),
    }
}

/// Identifier lists compare at their first difference, a proper prefix first.
pub open spec fn ids_less(a: Seq<PreId>, b: Seq<PreId>) -> bool
    decreases a.len(),
{
    if a.len() == 0 {
        b.len() > 0
    } else if b.len() == 0 {
        false
    } else if a[0] != b[0] {
        ident_less(a[0], b[0])
    } else {
        ids_less(a.drop_first(), b.drop_first())
    }
}

/// A pre-release comes before the release; pre-releases compare by identifiers.
pub open spec fn pre_less(a: Seq<PreId>, b: Seq<PreId>) -> bool {
    if a.len() == 0 {
        false
    } else if b.len() == 0 {
        true
    } else {
        ids_less(a, b)
    }
}

/// Semantic version precedence: `a` is older than `b`.
pub open spec fn semver_less(a: SemVerModel, b: SemVerModel) -> bool {
    if a.major != b.major {
        a.major < b.major
    } else if a.minor != b.minor {
        a.minor < b.minor
    } else if a.patch != b.patch {
        a.patch < b.patch
    } else {
        pre_less(a.pre, b.pre)
    }
}

proof fn lemma_chars_less_asymmetric(a: Seq<char>, b: Seq<char>)
    ensures
        !(chars_less(a, b) && chars_less(b, a)),
    decreases a.len(),
{
    if a.len() > 0 && b.len() > 0 && a[0] == b[0] {
        lemma_chars_less_asymmetric(a.drop_first(), b.drop_first());
    }
}

proof fn lemma_ids_less_asymmetric(a: Seq<PreId>, b: Seq<PreId>)
    ensures
        !(ids_less(a, b) && ids_less(b, a)),
    decreases a.len(),
{
    if a.len() > 0 && b.len() > 0 {
        if a[0] == b[0] {
            lemma_ids_less_asymmetric(a.drop_first(), b.drop_first());
        } else {
            match (a[0], b[0]) {
                (PreId::Alpha(x), PreId::Alpha(y)) => lemma_chars_less_asymmetric(x, y),
                _ => {},
            }
        }
    }
}

/// Precedence is a strict order: no version comes before itself, and of two
/// versions at most one comes before the other. So a version is never
/// announced as newer than itself or than a newer one.
pub proof fn lemma_semver_less_strict(a: SemVerModel, b: SemVerModel)
    ensures
        !semver_less(a, a),
        !(semver_less(a, b) && semver_less(b, a)),
{
    lemma_ids_less_asymmetric(a.pre, a.pre);
    lemma_ids_less_asymmetric(a.pre, b.pre);
}

/// Precedence decides on the major version first, then the minor, then the
/// patch version; only when all three agree does a pre-release come before
/// the release. So a version with a higher major version is always newer,
/// and an older major version never is.
pub proof fn lemma_precedence_by_components(a: SemVerModel, b: SemVerModel)
    ensures
        a.major < b.major ==> semver_less(a, b),
        semver_less(a, b) ==> a.major <= b.major,
        a.major == b.major && a.minor < b.minor ==> semver_less(a, b),
        a.major == b.major && semver_less(a, b) ==> a.minor <= b.minor,
        a.major == b.major && a.minor == b.minor && a.patch < b.patch ==> semver_less(a, b),
        a.major == b.major && a.minor == b.minor && semver_less(a, b) ==> a.patch <= b.patch,
        a.major == b.major && a.minor == b.minor && a.patch == b.patch && a.pre.len() > 0
            && b.pre.len() == 0 ==> semver_less(a, b),
        a.major == b.major && a.minor == b.minor && a.patch == b.patch && a.pre.len() == 0
            ==> !semver_less(a, b),
{
}

/// Pre-release identifiers: numbers come before text, numbers compare by
/// value, and a list that extends another comes after it.
pub proof fn lemma_pre_release_order(x: u64, y: u64, t: Seq<char>, ids: Seq<PreId>, more: PreId)
    ensures
        ids_less(seq![PreId::Num(x)], seq![PreId::Num(y)]) <==> x < y,
        ids_less(seq![PreId::Num(x)], seq![PreId::Alpha(t)]),
        !ids_less(seq![PreId::Alpha(t)], seq![PreId::Num(x)]),
        ids_less(ids, ids.push(more)),
    decreases ids.len(),
{
    assert(seq![PreId::Num(x)].drop_first() =~= Seq::<PreId>::empty());
    assert(seq![PreId::Num(y)].drop_first() =~= Seq::<PreId>::empty());
    assert(!ids_less(Seq::<PreId>::empty(), Seq::<PreId>::empty()));
    if ids.len() > 0 {
        assert(ids.push(more)[0] == ids[0]);
        assert(ids.push(more).drop_first() =~= ids.drop_first().push(more));
        lemma_pre_release_order(x, y, t, ids.drop_first(), more);
    }
}

proof fn lemma_first_index_absent(s: Seq<char>, c: char)
    requires
        !s.contains(c),
    ensures
        first_index(s, c) == s.len(),
    decreases s.len(),
{
    if s.len() > 0 {
        assert(!s.drop_last().contains(c)) by {
            if s.drop_last().contains(c) {
                let i = choose|i: int| 0 <= i < s.drop_last().len() && s.drop_last()[i] == c;
                assert(s[i] == c);
            }
        }
        lemma_first_index_absent(s.drop_last(), c);
        assert(s[s.len() - 1] != c);
    }
}

proof fn lemma_split_plain(s: Seq<char>, sep: char)
    requires
        !s.contains(sep),
    ensures
        split(s, sep) == seq![s],
    decreases s.len(),
{
    if s.len() == 0 {
        assert(s =~= Seq::<char>::empty());
        assert(split(s, sep) =~= seq![s]);
    } else {
        assert(!s.drop_last().contains(sep)) by {
            if s.drop_last().contains(sep) {
                let i = choose|i: int| 0 <= i < s.drop_last().len() && s.drop_last()[i] == sep;
                assert(s[i] == sep);
            }
        }
        lemma_split_plain(s.drop_last(), sep);
        assert(s[s.len() - 1] != sep);
        assert(s.drop_last().push(s.last()) =~= s);
        let parts = split(s.drop_last(), sep);
        assert(parts.len() == 1 && parts.last() == s.drop_last());
        assert(s.last() != sep);
        assert(split(s, sep) == parts.update(0, s.drop_last().push(s.last())));
        assert(split(s, sep) =~= seq![s]);
    }
}

proof fn lemma_split_join(a: Seq<char>, b: Seq<char>, sep: char)
    ensures
        split(a + seq![sep] + b, sep) == split(a, sep) + split(b, sep),
    decreases b.len(),
{
    let j = a + seq![sep] + b;
    if b.len() == 0 {
        assert(j =~= (a + seq![sep]));
        assert((a + seq![sep]).drop_last() =~= a);
        assert(split(Seq::<char>::empty(), sep) =~= seq![Seq::<char>::empty()]);
        assert(split(j, sep) =~= split(a, sep) + split(b, sep));
    } else {
        assert(j.drop_last() =~= a + seq![sep] + b.drop_last());
        lemma_split_join(a, b.drop_last(), sep);
        let pa = split(a, sep);
        let pb = split(b.drop_last(), sep);
        lemma_split_len(b.drop_last(), sep);
        if b.last() == sep {
            assert(split(j, sep) =~= split(a, sep) + split(b, sep));
        } else {
            assert((pa + pb).update((pa + pb).len() - 1, (pa + pb).last().push(b.last())) =~= pa
                + pb.update(pb.len() - 1, pb.last().push(b.last())));
            assert(split(j, sep) =~= split(a, sep) + split(b, sep));
        }
    }
}

proof fn lemma_split_len(s: Seq<char>, sep: char)
    ensures
        split(s, sep).len() >= 1,
    decreases s.len(),
{
    if s.len() > 0 {
        lemma_split_len(s.drop_last(), sep);
    }
}

proof fn lemma_digits_lack(s: Seq<char>, c: char)
    requires
        all_digits(s),
        !is_digit(c),
    ensures
        !s.contains(c),
{
    if s.contains(c) {
        let i = choose|i: int| 0 <= i < s.len() && s[i] == c;
        assert(is_digit(s[i]));
    }
}

/// A release version `x.y.z` is read component by component, in that order:
/// its major version is the value of `x`, its minor that of `y`, its patch
/// that of `z`, and it has no pre-release.
pub proof fn lemma_parse_release(x: Seq<char>, y: Seq<char>, z: Seq<char>)
    requires
        numeric_part(x) is Some,
        numeric_part(y) is Some,
        numeric_part(z) is Some,
    ensures
        parse_semver(x + seq!['.'] + y + seq!['.'] + z) == Some(
            SemVerModel {
                major: numeric_part(x)->Some_0,
                minor: numeric_part(y)->Some_0,
                patch: numeric_part(z)->Some_0,
                pre: Seq::empty(),
            },
        ),
{
    let s = x + seq!['.'] + y + seq!['.'] + z;
    lemma_digits_lack(x, '.');
    lemma_digits_lack(y, '.');
    lemma_digits_lack(z, '.');
    assert(!s.contains('+') && !s.contains('-')) by {
        assert forall|i: int| 0 <= i < s.len() implies s[i] != '+' && s[i] != '-' by {
            if i < x.len() {
                assert(s[i] == x[i] && is_digit(x[i]));
            } else if i == x.len() {
            } else if i < x.len() + 1 + y.len() {
                assert(s[i] == y[i - x.len() - 1] && is_digit(y[i - x.len() - 1]));
            } else if i == x.len() + 1 + y.len() {
            } else {
                assert(s[i] == z[i - x.len() - 2 - y.len()] && is_digit(z[i - x.len() - 2 - y.len()]));
            }
        }
    }
    lemma_first_index_absent(s, '+');
    assert(s.take(s.len() as int) =~= s);
    lemma_first_index_absent(s, '-');
    lemma_split_join(x + seq!['.'] + y, z, '.');
    lemma_split_join(x, y, '.');
    lemma_split_plain(x, '.');
    lemma_split_plain(y, '.');
    lemma_split_plain(z, '.');
    let nums = split(s, '.');
    assert(nums =~= seq![x, y, z]);
}

/// Numeric components are read in decimal: a single digit is its own value,
/// and appending a digit to a component (not a lone `0`) multiplies its value
/// by ten and adds the digit, as long as the result fits.
pub proof fn lemma_numeric_decimal(x: Seq<char>, d: char)
    requires
        is_digit(d),
    ensures
        numeric_part(seq![d]) == Some((d as int - '0' as int) as u64),
        numeric_part(x) is Some && x[0] != '0' && numeric_part(x)->Some_0 * 10 + (d as int
            - '0' as int) <= u64::MAX ==> numeric_part(x.push(d)) == Some(
            (numeric_part(x)->Some_0 * 10 + (d as int - '0' as int)) as u64,
        ),
{
    assert(seq![d].drop_last() =~= Seq::<char>::empty());
    assert(seq![d].last() == d);
    assert(bounded_value(Seq::<char>::empty()) == Some(0u64));
    assert(all_digits(seq![d])) by {
        assert forall|i: int| 0 <= i < seq![d].len() implies #[trigger] is_digit(seq![d][i]) by {
            assert(seq![d][i] == d);
        }
    }
    assert(digit_value(d) <= 9);
    if numeric_part(x) is Some && x[0] != '0' {
        assert(x.push(d).drop_last() =~= x);
        assert(all_digits(x.push(d))) by {
            assert forall|i: int| 0 <= i < x.push(d).len() implies #[trigger] is_digit(x.push(d)[i]) by {
                if i < x.len() {
                    assert(x.push(d)[i] == x[i]);
                }
            }
        }
    }
}

/// Text identifiers compare character by character: at the first difference
/// the smaller character comes first, and a proper prefix comes first.
pub proof fn lemma_text_order(p: Seq<char>, c1: char, c2: char, rest1: Seq<char>, rest2: Seq<char>)
    requires
        c1 < c2,
    ensures
        chars_less(p + seq![c1] + rest1, p + seq![c2] + rest2),
        !chars_less(p + seq![c2] + rest2, p + seq![c1] + rest1),
        chars_less(p, p + seq![c1] + rest1),
    decreases p.len(),
{
    let a = p + seq![c1] + rest1;
    let b = p + seq![c2] + rest2;
    if p.len() == 0 {
        assert(a[0] == c1 && b[0] == c2);
    } else {
        assert(a[0] == p[0] && b[0] == p[0]);
        assert(a.drop_first() =~= p.drop_first() + seq![c1] + rest1);
        assert(b.drop_first() =~= p.drop_first() + seq![c2] + rest2);
        lemma_text_order(p.drop_first(), c1, c2, rest1, rest2);
    }
}

fn chars_of(s: &String) -> (r: Vec<char>)
    ensures
        r@ == s@,
{
    let st = s.as_str();
    let n = st.unicode_len();
    let mut out: Vec<char> = Vec::new();
    let mut i: usize = 0;
    while i < n
        invariant
            0 <= i <= n,
            n == st@.len(),
            st@ == s@,
            out@ == st@.take(i as int),
        decreases n - i,
    {
        out.push(st.get_char(i));
        assert(out@ =~= st@.take(i + 1));
        i += 1;
    }
    assert(out@ =~= st@);
    out
}

fn slice_chars(v: &Vec<char>, from: usize, to: usize) -> (r: Vec<char>)
    requires
        from <= to <= v@.len(),
    ensures
        r@ == v@.subrange(from as int, to as int),
{
    let mut out: Vec<char> = Vec::new();
    let mut i: usize = from;
    while i < to
        invariant
            from <= i <= to <= v@.len(),
            out@ == v@.subrange(from as int, i as int),
        decreases to - i,
    {
        out.push(v[i]);
        assert(out@ =~= v@.subrange(from as int, i + 1));
        i += 1;
    }
    out
}

proof fn lemma_first_index_stable(s: Seq<char>, c: char, j: int)
    requires
        0 <= j <= s.len(),
        first_index(s.take(j), c) < j,
    ensures
        first_index(s, c) == first_index(s.take(j), c),
    decreases s.len() - j,
{
    if j < s.len() {
        assert(s.take(j + 1).drop_last() =~= s.take(j));
        lemma_first_index_stable(s, c, j + 1);
    } else {
        assert(s.take(j) =~= s);
    }
}

fn find_first(v: &Vec<char>, c: char) -> (r: usize)
    ensures
        r == first_index(v@, c),
{
    let mut i: usize = 0;
    assert(v@.take(0) =~= Seq::<char>::empty());
    while i < v.len()
        invariant
            0 <= i <= v@.len(),
            first_index(v@.take(i as int), c) == i,
        decreases v@.len() - i,
    {
        assert(v@.take(i + 1).drop_last() =~= v@.take(i as int));
        if v[i] == c {
            proof {
                lemma_first_index_stable(v@, c, i + 1);
            }
            return i;
        }
        i += 1;
    }
    assert(v@.take(v@.len() as int) =~= v@);
    i
}

pub open spec fn views(parts: Seq<Vec<char>>) -> Seq<Seq<char>> {
    parts.map_values(|x: Vec<char>| x@)
}

fn split_chars(v: &Vec<char>, sep: char) -> (r: Vec<Vec<char>>)
    ensures
        views(r@) == split(v@, sep),
{
    let mut parts: Vec<Vec<char>> = Vec::new();
    let mut cur: Vec<char> = Vec::new();
    assert(v@.take(0) =~= Seq::<char>::empty());
    assert(views(parts@).push(cur@) =~= split(v@.take(0), sep));
    let mut i: usize = 0;
    while i < v.len()
        invariant
            0 <= i <= v@.len(),
            views(parts@).push(cur@) == split(v@.take(i as int), sep),
        decreases v@.len() - i,
    {
        assert(v@.take(i + 1).drop_last() =~= v@.take(i as int));
        let ghost before = views(parts@).push(cur@);
        if v[i] == sep {
            let done = cur;
            cur = Vec::new();
            parts.push(done);
            assert(views(parts@).push(cur@) =~= before.push(Seq::<char>::empty()));
        } else {
            cur.push(v[i]);
            assert(views(parts@).push(cur@) =~= before.update(
                before.len() - 1,
                before.last().push(v@[i as int]),
            ));
        }
        i += 1;
    }
    assert(v@.take(v@.len() as int) =~= v@);
    parts.push(cur);
    assert(views(parts@) =~= split(v@, sep));
    parts
}

fn is_digit_char(c: char) -> (r: bool)
    ensures
        r == is_digit(c),
{
    '0' <= c && c <= '9'
}

fn is_ident_char_exec(c: char) -> (r: bool)
    ensures
        r == is_ident_char(c),
{
    ('0' <= c && c <= '9') || ('a' <= c && c <= 'z') || ('A' <= c && c <= 'Z') || c == '-'
}

fn only_digits(v: &Vec<char>) -> (r: bool)
    ensures
        r == all_digits(v@),
{
    let mut i: usize = 0;
    while i < v.len()
        invariant
            0 <= i <= v@.len(),
            forall|j: int| 0 <= j < i ==> #[trigger] is_digit(v@[j]),
        decreases v@.len() - i,
    {
        if !is_digit_char(v[i]) {
            return false;
        }
        i += 1;
    }
    true
}

fn only_ident_chars(v: &Vec<char>) -> (r: bool)
    ensures
        r == all_ident_chars(v@),
{
    let mut i: usize = 0;
    while i < v.len()
        invariant
            0 <= i <= v@.len(),
            forall|j: int| 0 <= j < i ==> #[trigger] is_ident_char(v@[j]),
        decreases v@.len() - i,
    {
        if !is_ident_char_exec(v[i]) {
            return false;
        }
        i += 1;
    }
    true
}

proof fn lemma_bounded_none(s: Seq<char>, j: int)
    requires
        0 <= j <= s.len(),
        bounded_value(s.take(j)) is None,
    ensures
        bounded_value(s) is None,
    decreases s.len() - j,
{
    if j < s.len() {
        assert(s.take(j + 1).drop_last() =~= s.take(j));
        lemma_bounded_none(s, j + 1);
    } else {
        assert(s.take(j) =~= s);
    }
}

fn bounded_num(v: &Vec<char>) -> (r: Option<u64>)
    requires
        all_digits(v@),
    ensures
        r == bounded_value(v@),
{
    let mut acc: u64 = 0;
    let mut i: usize = 0;
    assert(v@.take(0) =~= Seq::<char>::empty());
    while i < v.len()
        invariant
            0 <= i <= v@.len(),
            all_digits(v@),
            bounded_value(v@.take(i as int)) == Some(acc),
        decreases v@.len() - i,
    {
        assert(v@.take(i + 1).drop_last() =~= v@.take(i as int));
        assert(is_digit(v@[i as int]));
        let d: u64 = (v[i] as u32 - '0' as u32) as u64;
        assert(d == digit_value(v@[i as int]));
        match acc.checked_mul(10) {
            Some(t) => match t.checked_add(d) {
                Some(n) => {
                    acc = n;
                },
                None => {
                    proof {
                        lemma_bounded_none(v@, i + 1);
                    }
                    return None;
                },
            },
            None => {
                proof {
                    lemma_bounded_none(v@, i + 1);
                }
                return None;
            },
        }
        i += 1;
    }
    assert(v@.take(v@.len() as int) =~= v@);
    Some(acc)
}

fn numeric(v: &Vec<char>) -> (r: Option<u64>)
    ensures
        r == numeric_part(v@),
{
    if v.len() > 0 && only_digits(v) && (v.len() == 1 || v[0] != '0') {
        bounded_num(v)
    } else {
        None
    }
}

enum PreIdent {
    Num(u64),
    Alpha(Vec<char>),
}

impl PreIdent {
    spec fn model(self) -> PreId {
        match self {
            PreIdent::Num(n) => PreId::Num(n),
            PreIdent::Alpha(s) => PreId::Alpha(s@),
        }
    }
}

spec fn pre_models(ids: Seq<PreIdent>) -> Seq<PreId> {
    ids.map_values(|p: PreIdent| p.model())
}

fn ident(v: Vec<char>) -> (r: Option<PreIdent>)
    ensures
        match r {
            Some(p) => pre_ident(v@) == Some(p.model()),
            None => pre_ident(v@) is None,
        },
{
    if v.len() > 0 && only_ident_chars(&v) {
        if only_digits(&v) {
            match numeric(&v) {
                Some(n) => Some(PreIdent::Num(n)),
                None => None,
            }
        } else {
            Some(PreIdent::Alpha(v))
        }
    } else {
        None
    }
}

fn idents(parts: Vec<Vec<char>>) -> (r: Option<Vec<PreIdent>>)
    ensures
        match r {
            Some(ids) => pre_idents(views(parts@)) == Some(pre_models(ids@)),
            None => pre_idents(views(parts@)) is None,
        },
{
    let ghost all = views(parts@);
    let mut out: Vec<PreIdent> = Vec::new();
    let mut rest = parts;
    let mut taken: Vec<Vec<char>> = Vec::new();
    assert(views(taken@) =~= Seq::<Seq<char>>::empty());
    assert(pre_models(out@) =~= Seq::<PreId>::empty());
    let mut i: usize = 0;
    let n = rest.len();
    while i < n
        invariant
            0 <= i <= n,
            n == all.len(),
            all == views(parts@),
            rest@.len() == n,
            forall|j: int| i <= j < n ==> #[trigger] rest@[j]@ == all[j],
            pre_idents(all.take(i as int)) == Some(pre_models(out@)),
        decreases n - i,
    {
        assert(all.take(i + 1).drop_last() =~= all.take(i as int));
        let mut part: Vec<char> = Vec::new();
        rest.set_and_swap(i, &mut part);
        assert(part@ == all[i as int]);
        match ident(part) {
            Some(p) => {
                let ghost before = pre_models(out@);
                out.push(p);
                assert(pre_models(out@) =~= before.push(p.model()));
            },
            None => {
                proof {
                    assert(all.take(i + 1).last() == all[i as int]);
                    lemma_idents_none(all, i + 1);
                }
                return None;
            },
        }
        i += 1;
    }
    assert(all.take(n as int) =~= all);
    Some(out)
}

proof fn lemma_idents_none(parts: Seq<Seq<char>>, j: int)
    requires
        0 <= j <= parts.len(),
        pre_idents(parts.take(j)) is None,
    ensures
        pre_idents(parts) is None,
    decreases parts.len() - j,
{
    if j < parts.len() {
        assert(parts.take(j + 1).drop_last() =~= parts.take(j));
        lemma_idents_none(parts, j + 1);
    } else {
        assert(parts.take(j) =~= parts);
    }
}

fn build_ok(parts: &Vec<Vec<char>>) -> (r: bool)
    ensures
        r == build_valid(views(parts@)),
{
    let mut i: usize = 0;
    while i < parts.len()
        invariant
            0 <= i <= parts@.len(),
            forall|j: int|
                0 <= j < i ==> (#[trigger] views(parts@)[j]).len() > 0 && all_ident_chars(
                    views(parts@)[j],
                ),
        decreases parts@.len() - i,
    {
        if parts[i].len() == 0 || !only_ident_chars(&parts[i]) {
            assert(views(parts@)[i as int] == parts@[i as int]@);
            return false;
        }
        i += 1;
    }
    true
}

struct SemVer {
    major: u64,
    minor: u64,
    patch: u64,
    pre: Vec<PreIdent>,
}

impl SemVer {
    spec fn model(self) -> SemVerModel {
        SemVerModel { major: self.major, minor: self.minor, patch: self.patch, pre: pre_models(self.pre@) }
    }
}

fn parse(s: &String) -> (r: Option<SemVer>)
    ensures
        match r {
            Some(v) => parse_semver(s@) == Some(v.model()),
            None => parse_semver(s@) is None,
        },
{
    let cs = chars_of(s);
    let plus = find_first(&cs, '+');
    let main = slice_chars(&cs, 0, plus);
    assert(main@ =~= s@.take(plus as int));
    let build_good = if plus == cs.len() {
        true
    } else {
        let build = slice_chars(&cs, plus + 1, cs.len());
        assert(build@ =~= s@.skip(plus + 1));
        build_ok(&split_chars(&build, '.'))
    };
    let dash = find_first(&main, '-');
    let core = slice_chars(&main, 0, dash);
    assert(core@ =~= main@.take(dash as int));
    let nums = split_chars(&core, '.');
    let pre: Option<Vec<PreIdent>> = if dash == main.len() {
        let e: Vec<PreIdent> = Vec::new();
        assert(pre_models(e@) =~= Seq::<PreId>::empty());
        Some(e)
    } else {
        let pre_text = slice_chars(&main, dash + 1, main.len());
        assert(pre_text@ =~= main@.skip(dash + 1));
        idents(split_chars(&pre_text, '.'))
    };
    if !build_good || nums.len() != 3 {
        return None;
    }
    assert(views(nums@)[0] == nums@[0]@ && views(nums@)[1] == nums@[1]@ && views(nums@)[2]
        == nums@[2]@);
    match (numeric(&nums[0]), numeric(&nums[1]), numeric(&nums[2]), pre) {
        (Some(major), Some(minor), Some(patch), Some(pre)) => Some(SemVer { major, minor, patch, pre }),
        _ => None,
    }
}

proof fn lemma_chars_less_skip(a: Seq<char>, b: Seq<char>, i: int)
    requires
        0 <= i < a.len(),
        i < b.len(),
        a[i] == b[i],
    ensures
        chars_less(a.skip(i), b.skip(i)) == chars_less(a.skip(i + 1), b.skip(i + 1)),
{
    assert(a.skip(i).drop_first() =~= a.skip(i + 1));
    assert(b.skip(i).drop_first() =~= b.skip(i + 1));
}

fn chars_less_exec(a: &Vec<char>, b: &Vec<char>) -> (r: bool)
    ensures
        r == chars_less(a@, b@),
{
    let mut i: usize = 0;
    assert(a@.skip(0) =~= a@);
    assert(b@.skip(0) =~= b@);
    while i < a.len() && i < b.len()
        invariant
            0 <= i <= a@.len(),
            i <= b@.len(),
            chars_less(a@, b@) == chars_less(a@.skip(i as int), b@.skip(i as int)),
        decreases a@.len() - i,
    {
        if a[i] != b[i] {
            return a[i] < b[i];
        }
        proof {
            lemma_chars_less_skip(a@, b@, i as int);
        }
        i += 1;
    }
    i == a.len() && i < b.len()
}

fn chars_eq(a: &Vec<char>, b: &Vec<char>) -> (r: bool)
    ensures
        r == (a@ == b@),
{
    if a.len() != b.len() {
        return false;
    }
    let mut i: usize = 0;
    while i < a.len()
        invariant
            0 <= i <= a@.len(),
            a@.len() == b@.len(),
            forall|j: int| 0 <= j < i ==> a@[j] == b@[j],
        decreases a@.len() - i,
    {
        if a[i] != b[i] {
            return false;
        }
        i += 1;
    }
    assert(a@ =~= b@);
    true
}

fn ident_eq(a: &PreIdent, b: &PreIdent) -> (r: bool)
    ensures
        r == (a.model() == b.model()),
{
    match (a, b) {
        (PreIdent::Num(x), PreIdent::Num(y)) => *x == *y,
        (PreIdent::Alpha(x), PreIdent::Alpha(y)) => chars_eq(x, y),
        _ => false,
    }
}

fn ident_less_exec(a: &PreIdent, b: &PreIdent) -> (r: bool)
    ensures
        r == ident_less(a.model(), b.model()),
{
    match (a, b) {
        (PreIdent::Num(x), PreIdent::Num(y)) => *x < *y,
        (PreIdent::Num(_), PreIdent::Alpha(_)) => true,
        (PreIdent::Alpha(_), PreIdent::Num(_)) => false,
        (PreIdent::Alpha(x), PreIdent::Alpha(y)) => chars_less_exec(x, y),
    }
}

proof fn lemma_ids_less_skip(a: Seq<PreId>, b: Seq<PreId>, i: int)
    requires
        0 <= i < a.len(),
        i < b.len(),
        a[i] == b[i],
    ensures
        ids_less(a.skip(i), b.skip(i)) == ids_less(a.skip(i + 1), b.skip(i + 1)),
{
    assert(a.skip(i).drop_first() =~= a.skip(i + 1));
    assert(b.skip(i).drop_first() =~= b.skip(i + 1));
}

fn ids_less_exec(a: &Vec<PreIdent>, b: &Vec<PreIdent>) -> (r: bool)
    ensures
        r == ids_less(pre_models(a@), pre_models(b@)),
{
    let ghost ma = pre_models(a@);
    let ghost mb = pre_models(b@);
    let mut i: usize = 0;
    assert(ma.skip(0) =~= ma);
    assert(mb.skip(0) =~= mb);
    while i < a.len() && i < b.len()
        invariant
            0 <= i <= a@.len(),
            i <= b@.len(),
            ma == pre_models(a@),
            mb == pre_models(b@),
            ids_less(ma, mb) == ids_less(ma.skip(i as int), mb.skip(i as int)),
        decreases a@.len() - i,
    {
        assert(ma.skip(i as int)[0] == ma[i as int]);
        assert(mb.skip(i as int)[0] == mb[i as int]);
        if !ident_eq(&a[i], &b[i]) {
            return ident_less_exec(&a[i], &b[i]);
        }
        proof {
            lemma_ids_less_skip(ma, mb, i as int);
        }
        i += 1;
    }
    i == a.len() && i < b.len()
}

fn semver_less_exec(a: &SemVer, b: &SemVer) -> (r: bool)
    ensures
        r == semver_less(a.model(), b.model()),
{
    if a.major != b.major {
        a.major < b.major
    } else if a.minor != b.minor {
        a.minor < b.minor
    } else if a.patch != b.patch {
        a.patch < b.patch
    } else if a.pre.len() == 0 {
        false
    } else if b.pre.len() == 0 {
        true
    } else {
        ids_less_exec(&a.pre, &b.pre)
    }
}

/// The version to announce to the user: the newest stable version published,
/// when it is a newer semantic version than the running one. Nothing is
/// announced when the published version is the same or older, or when
/// either text is no semantic version.
pub fn newer_version(running: &String, newest: &String) -> (r: Option<String>)
    ensures
        r is Some <==> (parse_semver(running@) is Some && parse_semver(newest@) is Some
            && semver_less(parse_semver(running@)->Some_0, parse_semver(newest@)->Some_0)),
        r matches Some(v) ==> v@ == newest@,
{
    match (parse(running), parse(newest)) {
        (Some(a), Some(b)) => if semver_less_exec(&a, &b) {
            Some(newest.clone())
        } else {
            None
        },
        _ => None,
    }
}

} // verus!
