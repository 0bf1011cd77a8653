//! Character-level building blocks of the filtergraph language: blanks,
//! trimming, searching and splitting, each as a mathematical function on
//! `Seq<char>` with an executable counterpart on `&str`.
use vstd::prelude::*;
use vstd::string::StrSliceExecFns;

verus! {

/// The blank characters: the 25 characters of the Unicode property
/// `White_Space`, among them space, tab, the line breaks and the no-break
/// space.
pub open spec fn is_blank(c: char) -> bool {
    let n = c as u32;
    ||| 0x09 <= n <= 0x0D
    ||| n == 0x20
    ||| n == 0x85
    ||| n == 0xA0
    ||| n == 0x1680
    ||| 0x2000 <= n <= 0x200A
    ||| n == 0x2028
    ||| n == 0x2029
    ||| n == 0x202F
    ||| n == 0x205F
    ||| n == 0x3000
}

/// `s` without its leading blanks.
pub open spec fn trim_start(s: Seq<char>) -> Seq<char>
    decreases s.len(),
{
    if s.len() > 0 && is_blank(s[0]) {
        trim_start(s.drop_first())
    } else {
        s
    }
}

/// `s` without its trailing blanks.
pub open spec fn trim_end(s: Seq<char>) -> Seq<char>
    decreases s.len(),
{
    if s.len() > 0 && is_blank(s.last()) {
        trim_end(s.drop_last())
    } else {
        s
    }
}

/// `s` without leading and trailing blanks.
pub open spec fn trim(s: Seq<char>) -> Seq<char> {
    trim_end(trim_start(s))
}

/// Position of the first `c` in `s`, or `s.len()` when `s` holds none.
pub open spec fn index_of(s: Seq<char>, c: char) -> nat
    decreases s.len(),
{
    if s.len() == 0 {
        0
    } else if s[0] == c {
        0
    } else {
        1 + index_of(s.drop_first(), c)
    }
}

/// Position just behind the last `c` in `s`, or 0 when `s` holds none.
pub open spec fn end_of_last(s: Seq<char>, c: char) -> nat
    decreases s.len(),
{
    if s.len() == 0 {
        0
    } else if s.last() == c {
        s.len()
    } else {
        end_of_last(s.drop_last(), c)
    }
}

/// The pieces of `s` between occurrences of `sep`; always at least one piece.
pub open spec fn split(s: Seq<char>, sep: char) -> Seq<Seq<char>>
    decreases s.len(),
{
    let i = index_of(s, sep);
    if i >= s.len() {
        seq![s]
    } else {
        seq![s.subrange(0, i as int)] + split(s.subrange(i as int + 1, s.len() as int), sep)
    }
}

/// The pieces joined again, with `sep` between neighbours.
pub open spec fn join(pieces: Seq<Seq<char>>, sep: char) -> Seq<char>
    decreases pieces.len(),
{
    if pieces.len() == 0 {
        Seq::<char>::empty()
    } else if pieces.len() == 1 {
        pieces[0]
    } else {
        join(pieces.drop_last(), sep) + seq![sep] + pieces.last()
    }
}

/// The views of a sequence of string slices.
pub open spec fn views(v: Seq<&str>) -> Seq<Seq<char>> {
    Seq::new(v.len(), |i: int| v[i]@)
}

/// `index_of` points at the first `c`, and never behind the text.
pub proof fn lemma_index_of_bound(s: Seq<char>, c: char)
    ensures
        index_of(s, c) <= s.len(),
        index_of(s, c) < s.len() ==> s[index_of(s, c) as int] == c,
        forall|k: int| 0 <= k < index_of(s, c) ==> s[k] != c,
    decreases s.len(),
{
    if s.len() > 0 && s[0] != c {
        let t = s.drop_first();
        lemma_index_of_bound(t, c);
        assert forall|k: int| 0 <= k < index_of(s, c) implies s[k] != c by {
            if k > 0 {
                assert(s[k] == t[k - 1]);
            }
        }
    }
}

/// The first `c` is where a scan from the left finds it.
pub proof fn lemma_index_of_at(s: Seq<char>, c: char, m: int)
    requires
        0 <= m <= s.len(),
        forall|k: int| 0 <= k < m ==> s[k] != c,
        m < s.len() ==> s[m] == c,
    ensures
        index_of(s, c) == m,
    decreases s.len(),
{
    if s.len() > 0 && m > 0 {
        let t = s.drop_first();
        assert forall|k: int| 0 <= k < m - 1 implies t[k] != c by {
            assert(t[k] == s[k + 1]);
        }
        lemma_index_of_at(t, c, m - 1);
    }
}

/// `end_of_last` points just behind the last `c`, and never behind the text.
pub proof fn lemma_end_of_last_bound(s: Seq<char>, c: char)
    ensures
        end_of_last(s, c) <= s.len(),
        end_of_last(s, c) > 0 ==> s[end_of_last(s, c) - 1] == c,
        forall|k: int| end_of_last(s, c) <= k < s.len() ==> s[k] != c,
    decreases s.len(),
{
    if s.len() > 0 && s.last() != c {
        let t = s.drop_last();
        lemma_end_of_last_bound(t, c);
        assert forall|k: int| end_of_last(s, c) <= k < s.len() implies s[k] != c by {
            if k < t.len() {
                assert(s[k] == t[k]);
            }
        }
    }
}

/// The last `c` is where a scan from the right finds it.
pub proof fn lemma_end_of_last_at(s: Seq<char>, c: char, m: int)
    requires
        0 <= m <= s.len(),
        forall|k: int| m <= k < s.len() ==> s[k] != c,
        m > 0 ==> s[m - 1] == c,
    ensures
        end_of_last(s, c) == m,
    decreases s.len(),
{
    if s.len() > 0 && m < s.len() {
        lemma_end_of_last_at(s.drop_last(), c, m);
    }
}

/// Whether `t` holds no `c`.
pub open spec fn free_of(t: Seq<char>, c: char) -> bool {
    forall|k: int| 0 <= k < t.len() ==> t[k] != c
}

/// Whether `t` neither begins nor ends with a blank.
pub open spec fn trimmed(t: Seq<char>) -> bool {
    t.len() > 0 ==> !is_blank(t[0]) && !is_blank(t.last())
}

/// Trimming at the left keeps the end of the text and leaves no blank in front.
pub proof fn lemma_trim_start_props(s: Seq<char>, c: char)
    ensures
        trim_start(s).len() <= s.len(),
        free_of(s, c) ==> free_of(trim_start(s), c),
        trim_start(s).len() > 0 ==> !is_blank(trim_start(s)[0]) && trim_start(s).last()
            == s.last(),
    decreases s.len(),
{
    if s.len() > 0 && is_blank(s[0]) {
        let t = s.drop_first();
        lemma_trim_start_props(t, c);
        if free_of(s, c) {
            assert forall|k: int| 0 <= k < t.len() implies t[k] != c by {
                assert(t[k] == s[k + 1]);
            }
        }
    }
}

/// Trimming at the right keeps the start of the text and leaves no blank behind.
pub proof fn lemma_trim_end_props(s: Seq<char>, c: char)
    ensures
        trim_end(s).len() <= s.len(),
        free_of(s, c) ==> free_of(trim_end(s), c),
        trim_end(s).len() > 0 ==> !is_blank(trim_end(s).last()) && trim_end(s)[0] == s[0],
    decreases s.len(),
{
    if s.len() > 0 && is_blank(s.last()) {
        let t = s.drop_last();
        lemma_trim_end_props(t, c);
        if free_of(s, c) {
            assert forall|k: int| 0 <= k < t.len() implies t[k] != c by {
                assert(t[k] == s[k]);
            }
        }
    }
}

/// A trimmed text is trimmed, and holds no character that the text did not hold.
pub proof fn lemma_trim_props(s: Seq<char>, c: char)
    ensures
        trimmed(trim(s)),
        free_of(s, c) ==> free_of(trim(s), c),
{
    lemma_trim_start_props(s, c);
    lemma_trim_end_props(trim_start(s), c);
}

/// Trimming changes nothing in a text that is trimmed already.
pub proof fn lemma_trim_id(s: Seq<char>)
    requires
        trimmed(s),
    ensures
        trim(s) == s,
{
}

/// A text without `c` has its first `c` at its end.
pub proof fn lemma_index_of_free(s: Seq<char>, c: char)
    requires
        free_of(s, c),
    ensures
        index_of(s, c) == s.len(),
{
    lemma_index_of_at(s, c, s.len() as int);
}

/// A joined text begins with the first piece.
pub proof fn lemma_join_unfold_left(ps: Seq<Seq<char>>, sep: char)
    requires
        ps.len() >= 2,
    ensures
        join(ps, sep) == ps[0] + seq![sep] + join(ps.drop_first(), sep),
    decreases ps.len(),
{
    if ps.len() == 2 {
        assert(join(ps.drop_last(), sep) == ps[0]);
        assert(join(ps.drop_first(), sep) == ps[1]);
        assert(join(ps, sep) =~= ps[0] + seq![sep] + join(ps.drop_first(), sep));
    } else {
        let front = ps.drop_last();
        let back = ps.drop_first();
        lemma_join_unfold_left(front, sep);
        assert(front.drop_first() =~= back.drop_last());
        assert(front[0] == ps[0]);
        assert(back.last() == ps.last());
        let mid = join(back.drop_last(), sep);
        assert(join(ps, sep) == join(front, sep) + seq![sep] + ps.last());
        assert(join(front, sep) == ps[0] + seq![sep] + mid);
        assert(join(back, sep) == mid + seq![sep] + ps.last());
        assert(join(ps, sep) =~= ps[0] + seq![sep] + join(back, sep));
    }
}

/// Joining adds no character but the separator.
pub proof fn lemma_join_free(ps: Seq<Seq<char>>, sep: char, c: char)
    requires
        sep != c,
        forall|i: int| 0 <= i < ps.len() ==> free_of(#[trigger] ps[i], c),
    ensures
        free_of(join(ps, sep), c),
    decreases ps.len(),
{
    if ps.len() >= 2 {
        let front = ps.drop_last();
        assert forall|i: int| 0 <= i < front.len() implies free_of(#[trigger] front[i], c) by {
            assert(front[i] == ps[i]);
        }
        lemma_join_free(front, sep, c);
        assert(free_of(ps.last(), c));
    } else if ps.len() == 1 {
        assert(free_of(ps[0], c));
    }
}

/// Splitting undoes joining, where no piece holds the separator.
pub proof fn lemma_split_join(ps: Seq<Seq<char>>, sep: char)
    requires
        ps.len() >= 1,
        forall|i: int| 0 <= i < ps.len() ==> free_of(#[trigger] ps[i], sep),
    ensures
        split(join(ps, sep), sep) == ps,
    decreases ps.len(),
{
    let s = join(ps, sep);
    assert(free_of(ps[0], sep));
    if ps.len() == 1 {
        lemma_index_of_free(s, sep);
        assert(split(s, sep) =~= ps);
    } else {
        let back = ps.drop_first();
        lemma_join_unfold_left(ps, sep);
        assert forall|i: int| 0 <= i < back.len() implies free_of(#[trigger] back[i], sep) by {
            assert(back[i] == ps[i + 1]);
        }
        lemma_split_join(back, sep);
        let m = ps[0].len() as int;
        lemma_index_of_at(s, sep, m);
        assert(s.subrange(0, m) =~= ps[0]);
        assert(s.subrange(m + 1, s.len() as int) =~= join(back, sep));
        assert(split(s, sep) =~= ps);
    }
}

/// Every piece of a split text is free of the separator, and of each
/// character that the text is free of.
pub proof fn lemma_split_pieces(s: Seq<char>, sep: char, c: char)
    ensures
        split(s, sep).len() >= 1,
        forall|i: int| 0 <= i < split(s, sep).len() ==> free_of(#[trigger] split(s, sep)[i], sep),
        free_of(s, c) ==> forall|i: int|
            0 <= i < split(s, sep).len() ==> free_of(#[trigger] split(s, sep)[i], c),
    decreases s.len(),
{
    let i = index_of(s, sep);
    lemma_index_of_bound(s, sep);
    if i < s.len() {
        let head = s.subrange(0, i as int);
        let tail = s.subrange(i as int + 1, s.len() as int);
        lemma_split_pieces(tail, sep, c);
        assert(free_of(head, sep));
        let all = split(s, sep);
        assert forall|k: int| 0 <= k < all.len() implies free_of(#[trigger] all[k], sep) by {
            if k > 0 {
                assert(all[k] == split(tail, sep)[k - 1]);
            }
        }
        if free_of(s, c) {
            assert(free_of(head, c));
            assert(free_of(tail, c));
            assert forall|k: int| 0 <= k < all.len() implies free_of(#[trigger] all[k], c) by {
                if k > 0 {
                    assert(all[k] == split(tail, sep)[k - 1]);
                }
            }
        }
    }
}

/// The characters of `s`, one by one.
pub fn to_chars(s: &str) -> (v: Vec<char>)
    ensures
        v@ == s@,
{
    let mut v: Vec<char> = Vec::new();
    for c in it: s.chars()
        invariant
            v@ == it.seq().subrange(0, it.index()),
            it.seq() == s@,
    {
        v.push(c);
    }
    v
}

/// Trimming at the left drops exactly the leading run of blanks.
pub proof fn lemma_trim_start_at(s: Seq<char>, m: int)
    requires
        0 <= m <= s.len(),
        forall|k: int| 0 <= k < m ==> is_blank(s[k]),
        m < s.len() ==> !is_blank(s[m]),
    ensures
        trim_start(s) == s.subrange(m, s.len() as int),
    decreases s.len(),
{
    if m > 0 {
        let t = s.drop_first();
        assert forall|k: int| 0 <= k < m - 1 implies is_blank(t[k]) by {
            assert(t[k] == s[k + 1]);
        }
        lemma_trim_start_at(t, m - 1);
        assert(t.subrange(m - 1, t.len() as int) =~= s.subrange(m, s.len() as int));
    } else {
        assert(s.subrange(0, s.len() as int) =~= s);
    }
}

/// Trimming at the right drops exactly the trailing run of blanks.
pub proof fn lemma_trim_end_at(s: Seq<char>, m: int)
    requires
        0 <= m <= s.len(),
        forall|k: int| m <= k < s.len() ==> is_blank(s[k]),
        m > 0 ==> !is_blank(s[m - 1]),
    ensures
        trim_end(s) == s.subrange(0, m),
    decreases s.len(),
{
    if m < s.len() {
        let t = s.drop_last();
        lemma_trim_end_at(t, m);
        assert(t.subrange(0, m) =~= s.subrange(0, m));
    } else {
        assert(s.subrange(0, s.len() as int) =~= s);
    }
}

/// `s` without leading and trailing blanks, as a slice of `s`.
pub fn trim_str<'a>(s: &'a str) -> (t: &'a str)
    ensures
        t@ == trim(s@),
{
    let chars = to_chars(s);
    let n = chars.len();
    let mut lo: usize = 0;
    while lo < n && blank(chars[lo])
        invariant
            lo <= n,
            n == chars.len(),
            forall|k: int| 0 <= k < lo ==> is_blank(chars@[k]),
        decreases n - lo,
    {
        lo = lo + 1;
    }
    let mut hi: usize = n;
    while hi > lo && blank(chars[hi - 1])
        invariant
            lo <= hi <= n,
            n == chars.len(),
            forall|k: int| hi <= k < n ==> is_blank(chars@[k]),
        decreases hi,
    {
        hi = hi - 1;
    }
    proof {
        lemma_trim_start_at(s@, lo as int);
        let mid = s@.subrange(lo as int, n as int);
        lemma_trim_end_at(mid, hi - lo);
        assert(mid.subrange(0, hi - lo) =~= s@.subrange(lo as int, hi as int));
    }
    s.substring_char(lo, hi)
}

/// Whether `c` is a blank character.
pub fn blank(c: char) -> (b: bool)
    ensures
        b == is_blank(c),
{
    let n: u32 = c as u32;
    (0x09 <= n && n <= 0x0D) || n == 0x20 || n == 0x85 || n == 0xA0 || n == 0x1680 || (0x2000 <= n
        && n <= 0x200A) || n == 0x2028 || n == 0x2029 || n == 0x202F || n == 0x205F || n
        == 0x3000
}

/// Position of the first `c` among `chars`, or their number when there is none.
pub fn find_first(chars: &Vec<char>, c: char) -> (i: usize)
    ensures
        i == index_of(chars@, c),
{
    let mut i: usize = 0;
    while i < chars.len() && chars[i] != c
        invariant
            i <= chars.len(),
            forall|k: int| 0 <= k < i ==> chars@[k] != c,
        decreases chars.len() - i,
    {
        i = i + 1;
    }
    proof {
        lemma_index_of_at(chars@, c, i as int);
    }
    i
}

/// Position just behind the last `c` among `chars`, or 0 when there is none.
pub fn find_last_end(chars: &Vec<char>, c: char) -> (i: usize)
    ensures
        i == end_of_last(chars@, c),
{
    let mut i: usize = chars.len();
    while i > 0 && chars[i - 1] != c
        invariant
            i <= chars.len(),
            forall|k: int| i <= k < chars.len() ==> chars@[k] != c,
        decreases i,
    {
        i = i - 1;
    }
    proof {
        lemma_end_of_last_at(chars@, c, i as int);
    }
    i
}

/// The pieces of `s` between occurrences of `sep`, as slices of `s`.
pub fn split_str<'a>(s: &'a str, sep: char) -> (pieces: Vec<&'a str>)
    ensures
        views(pieces@) == split(s@, sep),
        pieces.len() >= 1,
{
    let chars = to_chars(s);
    let n = chars.len();
    let mut pieces: Vec<&'a str> = Vec::new();
    let mut start: usize = 0;
    let mut i: usize = 0;
    proof {
        assert(s@.subrange(0, n as int) =~= s@);
        assert(views(pieces@) + split(s@, sep) =~= split(s@, sep));
    }
    while i < n
        invariant
            start <= i <= n,
            n == chars.len(),
            chars@ == s@,
            forall|k: int| start <= k < i ==> chars@[k] != sep,
            split(s@, sep) == views(pieces@) + split(s@.subrange(start as int, n as int), sep),
        decreases n - i,
    {
        if chars[i] == sep {
            let piece = s.substring_char(start, i);
            proof {
                let rest = s@.subrange(start as int, n as int);
                lemma_index_of_at(rest, sep, i - start);
                assert(rest.subrange(0, i - start) =~= piece@);
                assert(rest.subrange(i - start + 1, rest.len() as int) =~= s@.subrange(
                    i + 1,
                    n as int,
                ));
                assert(views(pieces@.push(piece)) =~= views(pieces@) + seq![piece@]);
            }
            pieces.push(piece);
            start = i + 1;
        }
        i = i + 1;
    }
    let piece = s.substring_char(start, n);
    proof {
        let rest = s@.subrange(start as int, n as int);
        lemma_index_of_at(rest, sep, rest.len() as int);
        assert(views(pieces@.push(piece)) =~= views(pieces@) + seq![piece@]);
    }
    pieces.push(piece);
    pieces
}

/// Whether `a` and `b` hold the same characters.
pub fn same_text(a: &str, b: &str) -> (r: bool)
    ensures
        r == (a@ == b@),
{
    let x = to_chars(a);
    let y = to_chars(b);
    if x.len() != y.len() {
        return false;
    }
    let mut i: usize = 0;
    while i < x.len()
        invariant
            i <= x.len(),
            x.len() == y.len(),
            x@ == a@,
            y@ == b@,
            forall|k: int| 0 <= k < i ==> x@[k] == y@[k],
        decreases x.len() - i,
    {
        if x[i] != y[i] {
            proof {
                assert(a@[i as int] != b@[i as int]);
            }
            return false;
        }
        i = i + 1;
    }
    proof {
        assert(x@ =~= y@);
    }
    true
}

} // verus!
