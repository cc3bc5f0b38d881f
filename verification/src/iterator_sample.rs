//! Small computations over numbers, text and sequences.
use vstd::prelude::*;
use vstd::string::*;

verus! {

/// The sum `1 + 2 + ... + n`, zero when `n` is not positive.
pub open spec fn triangle_spec(n: int) -> int
    decreases n,
{
    if n <= 0 {
        0
    } else {
        n + triangle_spec(n - 1)
    }
}

proof fn lemma_triangle_monotone(i: int, j: int)
    requires
        i <= j,
    ensures
        triangle_spec(i) <= triangle_spec(j),
    decreases j - i,
{
    if i < j {
        lemma_triangle_monotone(i, j - 1);
    }
}

/// The sum of `1..=n`.
pub fn triangle(n: i32) -> (sum: i32)
    requires
        triangle_spec(n as int) <= i32::MAX,
    ensures
        sum == triangle_spec(n as int),
{
    let mut sum: i32 = 0;
    let mut i: i32 = 0;
    while i < n
        invariant
            0 <= i,
            n <= 0 ==> i == 0,
            n > 0 ==> i <= n,
            sum == triangle_spec(i as int),
            triangle_spec(n as int) <= i32::MAX,
        decreases n - i,
    {
        i = i + 1;
        proof {
            lemma_triangle_monotone(i as int, n as int);
        }
        sum = sum + i;
    }
    sum
}

/// A line without the carriage return that may end it.
pub open spec fn strip_cr(l: Seq<char>) -> Seq<char> {
    if l.len() > 0 && l.last() == '\r' {
        l.drop_last()
    } else {
        l
    }
}

/// The lines of `s`, given the part `cur` of the current line already
/// passed: a line ends at each `'\n'` (a `'\r'` just before it is dropped);
/// a last line without `'\n'` counts only when it is not empty.
pub open spec fn lines_from(s: Seq<char>, cur: Seq<char>) -> Seq<Seq<char>>
    decreases s.len(),
{
    if s.len() == 0 {
        if cur.len() == 0 {
            Seq::empty()
        } else {
            seq![cur]
        }
    } else if s[0] == '\n' {
        seq![strip_cr(cur)] + lines_from(s.drop_first(), Seq::empty())
    } else {
        lines_from(s.drop_first(), cur.push(s[0]))
    }
}

/// The lines of a text, as `str::lines` gives them.
pub open spec fn lines_of(s: Seq<char>) -> Seq<Seq<char>> {
    lines_from(s, Seq::empty())
}

/// The characters of a sequence of string slices.
pub open spec fn views(v: Seq<&str>) -> Seq<Seq<char>> {
    v.map_values(|l: &str| l@)
}

proof fn lemma_final_newline_from(s: Seq<char>, cur: Seq<char>)
    requires
        (cur + s).len() > 0,
        (cur + s).last() != '\n',
        (cur + s).last() != '\r',
    ensures
        lines_from(s.push('\n'), cur) == lines_from(s, cur),
        lines_from(s.push('\r').push('\n'), cur) == lines_from(s, cur),
    decreases s.len(),
{
    let t = s.push('\n');
    let u = s.push('\r').push('\n');
    if s.len() == 0 {
        assert(cur + s =~= cur);
        assert(t[0] == '\n');
        assert(t.drop_first() =~= Seq::<char>::empty());
        assert(u[0] == '\r');
        assert(u.drop_first() =~= seq!['\n']);
        assert(seq!['\n'][0] == '\n');
        assert(seq!['\n'].drop_first() =~= Seq::<char>::empty());
        assert(strip_cr(cur) =~= cur);
        assert(strip_cr(cur.push('\r')) =~= cur);
        assert(lines_from(Seq::<char>::empty(), Seq::<char>::empty()) =~= Seq::<Seq<char>>::empty());
        assert(lines_from(t, cur) =~= seq![strip_cr(cur)] + lines_from(Seq::<char>::empty(), Seq::<char>::empty()));
        assert(lines_from(t, cur) =~= seq![cur]);
        assert(lines_from(seq!['\n'], cur.push('\r')) =~= seq![cur]);
    } else {
        assert(t[0] == s[0]);
        assert(u[0] == s[0]);
        assert(t.drop_first() =~= s.drop_first().push('\n'));
        assert(u.drop_first() =~= s.drop_first().push('\r').push('\n'));
        if s[0] == '\n' {
            assert((Seq::<char>::empty() + s.drop_first()) =~= s.drop_first());
            assert(s.drop_first().len() > 0 && s.drop_first().last() == (cur + s).last()) by {
                assert((cur + s).last() == s.last());
            }
            lemma_final_newline_from(s.drop_first(), Seq::empty());
        } else {
            assert(cur.push(s[0]) + s.drop_first() =~= cur + s);
            lemma_final_newline_from(s.drop_first(), cur.push(s[0]));
        }
    }
}

/// A final line ending does not add a line: a text that is not empty and
/// does not end with `'\n'` or `'\r'` has the same lines with `"\n"` or
/// `"\r\n"` behind it.
pub proof fn lemma_final_line_ending(s: Seq<char>)
    requires
        s.len() > 0,
        s.last() != '\n',
        s.last() != '\r',
    ensures
        lines_of(s.push('\n')) == lines_of(s),
        lines_of(s.push('\r').push('\n')) == lines_of(s),
{
    assert(Seq::<char>::empty() + s =~= s);
    lemma_final_newline_from(s, Seq::empty());
}

/// Splits a text into its lines.
pub fn lines(text: &str) -> (out: Vec<&str>)
    ensures
        views(out@) == lines_of(text@),
{
    let n = text.unicode_len();
    let mut out: Vec<&str> = Vec::new();
    let mut start: usize = 0;
    let mut i: usize = 0;
    let ghost s = text@;
    proof {
        assert(s.skip(0) =~= s);
        assert(s.subrange(0, 0) =~= Seq::<char>::empty());
        assert(views(out@) =~= Seq::<Seq<char>>::empty());
    }
    while i < n
        invariant
            n == s.len(),
            s == text@,
            start <= i <= n,
            lines_of(s) == views(out@) + lines_from(s.skip(i as int), s.subrange(start as int, i as int)),
        decreases n - i,
    {
        let c = text.get_char(i);
        let ghost rest = s.skip(i as int);
        let ghost cur = s.subrange(start as int, i as int);
        proof {
            assert(rest[0] == c);
            assert(rest.drop_first() =~= s.skip(i + 1));
        }
        if c == '\n' {
            let mut end = i;
            if end > start && text.get_char(end - 1) == '\r' {
                end = end - 1;
            }
            let line = text.substring_char(start, end);
            proof {
                assert(line@ =~= strip_cr(cur));
                assert(views(out@.push(line)) =~= views(out@).push(line@));
                assert(views(out@) + lines_from(rest, cur) =~= views(out@).push(line@)
                    + lines_from(s.skip(i + 1), Seq::empty()));
                assert(s.subrange(i + 1, i + 1) =~= Seq::<char>::empty());
            }
            out.push(line);
            start = i + 1;
        } else {
            proof {
                assert(cur.push(c) =~= s.subrange(start as int, i + 1));
            }
        }
        i = i + 1;
    }
    proof {
        assert(s.skip(n as int) =~= Seq::<char>::empty());
    }
    if start < n {
        let line = text.substring_char(start, n);
        proof {
            assert(views(out@.push(line)) =~= views(out@).push(line@));
            assert(views(out@) + seq![line@] =~= views(out@).push(line@));
        }
        out.push(line);
    } else {
        proof {
            assert(views(out@) + Seq::<Seq<char>>::empty() =~= views(out@));
        }
    }
    out
}

/// The characters with the Unicode `White_Space` property, which
/// `char::is_whitespace` accepts.
pub open spec fn is_space(c: char) -> bool {
    let u = c as u32;
    ||| 0x9 <= u <= 0xD
    ||| u == 0x20
    ||| u == 0x85
    ||| u == 0xA0
    ||| u == 0x1680
    ||| 0x2000 <= u <= 0x200A
    ||| u == 0x2028
    ||| u == 0x2029
    ||| u == 0x202F
    ||| u == 0x205F
    ||| u == 0x3000
}

/// Among ASCII characters, exactly tab, line feed, vertical tab, form
/// feed, carriage return and space are white space.
pub proof fn lemma_ascii_white_space(c: char)
    requires
        (c as u32) < 0x80,
    ensures
        is_space(c) <==> (c == '\t' || c == '\n' || c == '\x0B' || c == '\x0C' || c == '\r' || c == ' '),
{
}

/// Whether `c` is white space.
pub fn is_space_char(c: char) -> (b: bool)
    ensures
        b == is_space(c),
        (c as u32) < 0x80 ==> (b <==> (c == '\t' || c == '\n' || c == '\x0B' || c == '\x0C' || c == '\r'
            || c == ' ')),
{
    proof {
        if (c as u32) < 0x80 {
            lemma_ascii_white_space(c);
        }
    }
    let u = c as u32;
    (0x9 <= u && u <= 0xD) || u == 0x20 || u == 0x85 || u == 0xA0 || u == 0x1680 || (0x2000 <= u
        && u <= 0x200A) || u == 0x2028 || u == 0x2029 || u == 0x202F || u == 0x205F || u == 0x3000
}

/// The text without its leading white space.
pub open spec fn trim_start_spec(s: Seq<char>) -> Seq<char>
    decreases s.len(),
{
    if s.len() > 0 && is_space(s[0]) {
        trim_start_spec(s.drop_first())
    } else {
        s
    }
}

/// The text without its trailing white space.
pub open spec fn trim_end_spec(s: Seq<char>) -> Seq<char>
    decreases s.len(),
{
    if s.len() > 0 && is_space(s.last()) {
        trim_end_spec(s.drop_last())
    } else {
        s
    }
}

/// The text without leading and trailing white space, as `str::trim` gives it.
pub open spec fn trim_spec(s: Seq<char>) -> Seq<char> {
    trim_end_spec(trim_start_spec(s))
}

/// Cutting leading white space leaves the text from its first character
/// that is not white space on; everything before it is white space.
proof fn lemma_trim_start_cut(s: Seq<char>) -> (a: int)
    ensures
        0 <= a <= s.len(),
        trim_start_spec(s) == s.subrange(a, s.len() as int),
        forall|i: int| 0 <= i < a ==> is_space(#[trigger] s[i]),
        a < s.len() ==> !is_space(s[a]),
    decreases s.len(),
{
    if s.len() > 0 && is_space(s[0]) {
        let a1 = lemma_trim_start_cut(s.drop_first());
        assert(s.drop_first().subrange(a1, s.len() - 1) =~= s.subrange(a1 + 1, s.len() as int));
        assert forall|i: int| 0 <= i < a1 + 1 implies is_space(#[trigger] s[i]) by {
            if i > 0 {
                assert(s[i] == s.drop_first()[i - 1]);
            }
        }
        a1 + 1
    } else {
        assert(s.subrange(0, s.len() as int) =~= s);
        0
    }
}

/// Cutting trailing white space leaves the text up to its last character
/// that is not white space; everything behind it is white space.
proof fn lemma_trim_end_cut(s: Seq<char>) -> (b: int)
    ensures
        0 <= b <= s.len(),
        trim_end_spec(s) == s.subrange(0, b),
        forall|i: int| b <= i < s.len() ==> is_space(#[trigger] s[i]),
        b > 0 ==> !is_space(s[b - 1]),
    decreases s.len(),
{
    if s.len() > 0 && is_space(s.last()) {
        let b1 = lemma_trim_end_cut(s.drop_last());
        assert(s.drop_last().subrange(0, b1) =~= s.subrange(0, b1));
        assert forall|i: int| b1 <= i < s.len() implies is_space(#[trigger] s[i]) by {
            if i < s.len() - 1 {
                assert(s[i] == s.drop_last()[i]);
            }
        }
        b1
    } else {
        assert(s.subrange(0, s.len() as int) =~= s);
        s.len() as int
    }
}

/// What `str::trim` gives: a stretch `s[a..b]` of the text with only white
/// space before and behind it, that neither starts nor ends with white
/// space (so it is empty only when the whole text is white space).
pub open spec fn trimmed_from(t: Seq<char>, s: Seq<char>) -> bool {
    &&& exists|a: int, b: int| {
        &&& 0 <= a <= b <= s.len()
        &&& t == #[trigger] s.subrange(a, b)
        &&& forall|i: int| 0 <= i < a ==> is_space(#[trigger] s[i])
        &&& forall|i: int| b <= i < s.len() ==> is_space(#[trigger] s[i])
    }
    &&& t.len() > 0 ==> !is_space(t[0]) && !is_space(t.last())
    &&& t.len() == 0 ==> forall|i: int| 0 <= i < s.len() ==> is_space(#[trigger] s[i])
}

/// Trimming cuts white space, and only white space, off both ends: the
/// trimmed text is the stretch of the text between its first and its last
/// character that is not white space.
pub proof fn lemma_trim_cuts_only_white_space(s: Seq<char>)
    ensures
        trimmed_from(trim_spec(s), s),
{
    let a = lemma_trim_start_cut(s);
    let m = s.subrange(a, s.len() as int);
    let b1 = lemma_trim_end_cut(m);
    let t = trim_spec(s);
    assert(t =~= s.subrange(a, a + b1));
    assert forall|i: int| a + b1 <= i < s.len() implies is_space(#[trigger] s[i]) by {
        assert(s[i] == m[i - a]);
    }
    if t.len() > 0 {
        assert(t[0] == s[a]);
        assert(t.last() == m[b1 - 1]);
    } else {
        assert forall|i: int| 0 <= i < s.len() implies is_space(#[trigger] s[i]) by {
            if i >= a {
                assert(s[i] == m[i - a]);
            }
        }
    }
}

/// Two texts trimmed from the same text are the same: the description of
/// `trimmed_from` leaves no choice.
pub proof fn lemma_trimmed_unique(t1: Seq<char>, t2: Seq<char>, s: Seq<char>)
    requires
        trimmed_from(t1, s),
        trimmed_from(t2, s),
    ensures
        t1 == t2,
{
    let (a1, b1) = choose|a: int, b: int| {
        &&& 0 <= a <= b <= s.len()
        &&& t1 == #[trigger] s.subrange(a, b)
        &&& forall|i: int| 0 <= i < a ==> is_space(#[trigger] s[i])
        &&& forall|i: int| b <= i < s.len() ==> is_space(#[trigger] s[i])
    };
    let (a2, b2) = choose|a: int, b: int| {
        &&& 0 <= a <= b <= s.len()
        &&& t2 == #[trigger] s.subrange(a, b)
        &&& forall|i: int| 0 <= i < a ==> is_space(#[trigger] s[i])
        &&& forall|i: int| b <= i < s.len() ==> is_space(#[trigger] s[i])
    };
    if t1.len() > 0 && t2.len() > 0 {
        assert(t1[0] == s[a1] && t2[0] == s[a2]);
        assert(t1.last() == s[b1 - 1] && t2.last() == s[b2 - 1]);
        if a1 < a2 {
            assert(is_space(s[a1]));
        }
        if a2 < a1 {
            assert(is_space(s[a2]));
        }
        if b1 < b2 {
            assert(is_space(s[b1]));
            assert(is_space(s[b2 - 1])) by {
                assert(b1 <= b2 - 1);
            }
        }
        if b2 < b1 {
            assert(is_space(s[b1 - 1])) by {
                assert(b2 <= b1 - 1);
            }
        }
        assert(t1 =~= t2);
    } else if t1.len() > 0 {
        assert(t1[0] == s[a1]);
        assert(is_space(s[a1]));
    } else if t2.len() > 0 {
        assert(t2[0] == s[a2]);
        assert(is_space(s[a2]));
    } else {
        assert(t1 =~= t2);
    }
}

/// Cuts leading and trailing white space off a text.
pub fn trim(text: &str) -> (t: &str)
    ensures
        t@ == trim_spec(text@),
        trimmed_from(t@, text@),
{
    proof {
        lemma_trim_cuts_only_white_space(text@);
    }
    let n = text.unicode_len();
    let ghost s = text@;
    let mut a: usize = 0;
    proof {
        assert(s.subrange(0, n as int) =~= s);
    }
    while a < n && is_space_char(text.get_char(a))
        invariant
            n == s.len(),
            s == text@,
            a <= n,
            trim_start_spec(s) == trim_start_spec(s.subrange(a as int, n as int)),
        decreases n - a,
    {
        proof {
            assert(s.subrange(a as int, n as int).drop_first() =~= s.subrange(a + 1, n as int));
        }
        a = a + 1;
    }
    let mut b: usize = n;
    while b > a && is_space_char(text.get_char(b - 1))
        invariant
            n == s.len(),
            s == text@,
            a <= b <= n,
            trim_spec(s) == trim_end_spec(s.subrange(a as int, b as int)),
        decreases b,
    {
        proof {
            assert(s.subrange(a as int, b as int).drop_last() =~= s.subrange(a as int, b - 1));
        }
        b = b - 1;
    }
    text.substring_char(a, b)
}

/// Whether a line is at least three bytes long in UTF-8.
pub open spec fn long_enough(l: Seq<char>) -> bool {
    vstd::utf8::encode_utf8(l).len() >= 3
}

/// The number of bytes of the UTF-8 encoding of `c`.
fn utf8_width(c: char) -> (w: usize)
    ensures
        w == vstd::utf8::encode_scalar(c as u32).len(),
{
    let u = c as u32;
    if u <= 0x7F {
        1
    } else if u <= 0x7FF {
        2
    } else if u <= 0xFFFF {
        3
    } else {
        4
    }
}

/// Whether a text is at least three bytes long in UTF-8.
pub fn is_long_enough(t: &str) -> (b: bool)
    ensures
        b == long_enough(t@),
{
    let n = t.unicode_len();
    let ghost s = t@;
    let mut bytes: usize = 0;
    let mut i: usize = 0;
    proof {
        assert(s.skip(0) =~= s);
    }
    while i < n && bytes < 3
        invariant
            n == s.len(),
            s == t@,
            i <= n,
            bytes < 3 + 4,
            long_enough(s) == (bytes + vstd::utf8::encode_utf8(s.skip(i as int)).len() >= 3),
        decreases n - i,
    {
        let c = t.get_char(i);
        proof {
            assert(s.skip(i as int)[0] == c);
            assert(s.skip(i as int).drop_first() =~= s.skip(i + 1));
        }
        bytes = bytes + utf8_width(c);
        i = i + 1;
    }
    proof {
        if i == n {
            assert(s.skip(i as int) =~= Seq::<char>::empty());
        }
    }
    bytes >= 3
}

/// Each line trimmed.
pub open spec fn trim_all(ls: Seq<Seq<char>>) -> Seq<Seq<char>> {
    ls.map_values(|l: Seq<char>| trim_spec(l))
}

/// The lines that are at least three bytes long.
pub open spec fn keep_long(ls: Seq<Seq<char>>) -> Seq<Seq<char>> {
    ls.filter(|l: Seq<char>| long_enough(l))
}

/// The lines of a text, trimmed, that are at least three bytes long.
pub open spec fn long_lines_spec(s: Seq<char>) -> Seq<Seq<char>> {
    keep_long(trim_all(lines_of(s)))
}

/// The trimmed lines of a text that are at least three bytes long.
pub fn long_lines(text: &str) -> (out: Vec<&str>)
    ensures
        views(out@) == long_lines_spec(text@),
{
    let all = lines(text);
    let ghost ls = views(all@);
    let mut out: Vec<&str> = Vec::new();
    let mut i: usize = 0;
    proof {
        reveal(Seq::filter);
        assert(trim_all(ls.subrange(0, 0)) =~= Seq::<Seq<char>>::empty());
        assert(views(out@) =~= Seq::<Seq<char>>::empty());
    }
    while i < all.len()
        invariant
            ls == views(all@),
            i <= all.len(),
            views(out@) == keep_long(trim_all(ls.subrange(0, i as int))),
        decreases all.len() - i,
    {
        let t = trim(all[i]);
        let ghost before = trim_all(ls.subrange(0, i as int));
        let ghost after = trim_all(ls.subrange(0, i + 1));
        proof {
            assert(ls[i as int] == all@[i as int]@);
            assert(after =~= before.push(t@));
            assert(after.drop_last() =~= before);
            assert(after.last() == t@);
            reveal(Seq::filter);
            assert(keep_long(after) == if long_enough(t@) {
                keep_long(before).push(t@)
            } else {
                keep_long(before)
            });
        }
        if is_long_enough(t) {
            proof {
                assert(views(out@.push(t)) =~= views(out@).push(t@));
            }
            out.push(t);
        }
        i = i + 1;
    }
    proof {
        assert(ls.subrange(0, all.len() as int) =~= ls);
    }
    out
}

/// The lines before the first empty line.
pub open spec fn header_spec(ls: Seq<Seq<char>>) -> Seq<Seq<char>>
    decreases ls.len(),
{
    if ls.len() == 0 || ls[0].len() == 0 {
        Seq::empty()
    } else {
        seq![ls[0]] + header_spec(ls.drop_first())
    }
}

/// The lines after the first empty line; none when there is no empty line.
pub open spec fn body_spec(ls: Seq<Seq<char>>) -> Seq<Seq<char>>
    decreases ls.len(),
{
    if ls.len() == 0 {
        Seq::empty()
    } else if ls[0].len() == 0 {
        ls.drop_first()
    } else {
        body_spec(ls.drop_first())
    }
}

/// The first index at or after `i` of an empty line, or the length.
fn first_empty_from(ls: &Vec<&str>, i: usize) -> (k: usize)
    requires
        i <= ls.len(),
    ensures
        i <= k <= ls.len(),
        forall|j: int| i <= j < k ==> (#[trigger] ls@[j])@.len() > 0,
        k < ls.len() ==> ls@[k as int]@.len() == 0,
{
    let mut k = i;
    while k < ls.len() && !ls[k].is_empty()
        invariant
            i <= k <= ls.len(),
            forall|j: int| i <= j < k ==> (#[trigger] ls@[j])@.len() > 0,
        decreases ls.len() - k,
    {
        k = k + 1;
    }
    k
}

proof fn lemma_header_body(ls: Seq<Seq<char>>, k: int)
    requires
        0 <= k <= ls.len(),
        forall|j: int| 0 <= j < k ==> (#[trigger] ls[j]).len() > 0,
        k < ls.len() ==> ls[k].len() == 0,
    ensures
        header_spec(ls) == ls.subrange(0, k),
        body_spec(ls) == if k < ls.len() { ls.subrange(k + 1, ls.len() as int) } else { Seq::empty() },
    decreases ls.len(),
{
    if ls.len() == 0 {
        assert(ls.subrange(0, k) =~= Seq::<Seq<char>>::empty());
    } else if k == 0 {
        assert(ls.subrange(0, 0) =~= Seq::<Seq<char>>::empty());
        assert(ls.drop_first() =~= ls.subrange(1, ls.len() as int));
    } else {
        assert forall|j: int| 0 <= j < k - 1 implies (#[trigger] ls.drop_first()[j]).len() > 0 by {
            assert(ls.drop_first()[j] == ls[j + 1]);
        }
        lemma_header_body(ls.drop_first(), k - 1);
        assert(seq![ls[0]] + ls.drop_first().subrange(0, k - 1) =~= ls.subrange(0, k));
        if k < ls.len() {
            assert(ls.drop_first().subrange(k, ls.len() - 1) =~= ls.subrange(k + 1, ls.len() as int));
        }
    }
}

/// When a message has an empty line, its header, that line and its body
/// make up all of its lines.
pub proof fn lemma_header_blank_body(ls: Seq<Seq<char>>)
    requires
        exists|j: int| 0 <= j < ls.len() && (#[trigger] ls[j]).len() == 0,
    ensures
        header_spec(ls) + seq![Seq::<char>::empty()] + body_spec(ls) == ls,
{
    let k = choose|j: int| 0 <= j < ls.len() && (#[trigger] ls[j]).len() == 0 && forall|i: int| 0 <= i < j ==> (#[trigger] ls[i]).len() > 0;
    lemma_first_empty_exists(ls);
    lemma_header_body(ls, k);
    assert(ls[k] =~= Seq::<char>::empty());
    assert(ls.subrange(0, k) + seq![Seq::<char>::empty()] + ls.subrange(k + 1, ls.len() as int) =~= ls);
}

proof fn lemma_first_empty_exists(ls: Seq<Seq<char>>)
    requires
        exists|j: int| 0 <= j < ls.len() && (#[trigger] ls[j]).len() == 0,
    ensures
        exists|j: int| 0 <= j < ls.len() && (#[trigger] ls[j]).len() == 0 && forall|i: int| 0 <= i < j ==> (#[trigger] ls[i]).len() > 0,
    decreases ls.len(),
{
    if ls[0].len() == 0 {
        assert(ls[0].len() == 0 && forall|i: int| 0 <= i < 0 ==> (#[trigger] ls[i]).len() > 0);
    } else {
        let d = ls.drop_first();
        let j0 = choose|j: int| 0 <= j < ls.len() && (#[trigger] ls[j]).len() == 0;
        assert(d[j0 - 1] == ls[j0]);
        lemma_first_empty_exists(d);
        let j = choose|j: int| 0 <= j < d.len() && (#[trigger] d[j]).len() == 0 && forall|i: int| 0 <= i < j ==> (#[trigger] d[i]).len() > 0;
        assert(ls[j + 1] == d[j]);
        assert forall|i: int| 0 <= i < j + 1 implies (#[trigger] ls[i]).len() > 0 by {
            if i > 0 {
                assert(ls[i] == d[i - 1]);
            }
        }
    }
}

/// The lines of a message before its first empty line: its header.
pub fn header_lines(text: &str) -> (out: Vec<&str>)
    ensures
        views(out@) == header_spec(lines_of(text@)),
{
    let all = lines(text);
    let k = first_empty_from(&all, 0);
    let mut out: Vec<&str> = Vec::new();
    let mut i: usize = 0;
    while i < k
        invariant
            k <= all.len(),
            i <= k,
            views(out@) == views(all@).subrange(0, i as int),
        decreases k - i,
    {
        proof {
            let x = all@[i as int];
            assert(views(all@)[i as int] == x@);
            assert(views(out@.push(x)) =~= views(out@).push(x@));
            assert(views(out@).push(x@) =~= views(all@).subrange(0, i + 1));
        }
        out.push(all[i]);
        i = i + 1;
    }
    proof {
        assert forall|j: int| 0 <= j < k implies (#[trigger] views(all@)[j]).len() > 0 by {
            assert(views(all@)[j] == all@[j]@);
        }
        lemma_header_body(views(all@), k as int);
    }
    out
}

/// The lines of a message after its first empty line: its body.
pub fn body_lines(text: &str) -> (out: Vec<&str>)
    ensures
        views(out@) == body_spec(lines_of(text@)),
{
    let all = lines(text);
    let k = first_empty_from(&all, 0);
    let mut out: Vec<&str> = Vec::new();
    proof {
        assert forall|j: int| 0 <= j < k implies (#[trigger] views(all@)[j]).len() > 0 by {
            assert(views(all@)[j] == all@[j]@);
        }
        lemma_header_body(views(all@), k as int);
        assert(views(out@) =~= Seq::<Seq<char>>::empty());
    }
    if k < all.len() {
        let mut i: usize = k + 1;
        proof {
            assert(views(all@).subrange(k + 1, k + 1) =~= Seq::<Seq<char>>::empty());
        }
        while i < all.len()
            invariant
                k < all.len(),
                k + 1 <= i <= all.len(),
                views(out@) == views(all@).subrange(k + 1, i as int),
            decreases all.len() - i,
        {
            proof {
                let x = all@[i as int];
                assert(views(all@)[i as int] == x@);
                assert(views(out@.push(x)) =~= views(out@).push(x@));
                assert(views(out@).push(x@) =~= views(all@).subrange(k + 1, i + 1));
            }
            out.push(all[i]);
            i = i + 1;
        }
    }
    out
}

/// The word that the fizz cycle (two empty words, then "fizz") gives at `i`
/// when counting from one.
pub open spec fn fizz_word(i: int) -> Seq<char> {
    if i % 3 == 0 {
        "fizz"@
    } else {
        ""@
    }
}

/// The word that the buzz cycle (four empty words, then "buzz") gives at
/// `i` when counting from one.
pub open spec fn buzz_word(i: int) -> Seq<char> {
    if i % 5 == 0 {
        "buzz"@
    } else {
        ""@
    }
}

/// The numbers `1..end`, each zipped with its fizz word and its buzz word.
pub fn fizz_buzz(end: i32) -> (v: Vec<(i32, (&'static str, &'static str))>)
    ensures
        v@.len() == if end > 1 { end - 1 } else { 0 },
        forall|k: int| 0 <= k < v@.len() ==> {
            &&& (#[trigger] v@[k]).0 == k + 1
            &&& v@[k].1.0@ == fizz_word(k + 1)
            &&& v@[k].1.1@ == buzz_word(k + 1)
        },
{
    let mut v: Vec<(i32, (&'static str, &'static str))> = Vec::new();
    let mut i: i32 = 1;
    while i < end
        invariant
            1 <= i,
            end > 1 ==> i <= end,
            end <= 1 ==> i == 1,
            v@.len() == i - 1,
            forall|k: int| 0 <= k < v@.len() ==> {
                &&& (#[trigger] v@[k]).0 == k + 1
                &&& v@[k].1.0@ == fizz_word(k + 1)
                &&& v@[k].1.1@ == buzz_word(k + 1)
            },
        decreases end - i,
    {
        let fizz = if i % 3 == 0 {
            "fizz"
        } else {
            ""
        };
        let buzz = if i % 5 == 0 {
            "buzz"
        } else {
            ""
        };
        v.push((i, (fizz, buzz)));
        i = i + 1;
    }
    v
}

/// The sum of a sequence of numbers.
pub open spec fn sum_spec(s: Seq<usize>) -> int
    decreases s.len(),
{
    if s.len() == 0 {
        0
    } else {
        sum_spec(s.drop_last()) + s.last()
    }
}

/// The product of a sequence of numbers.
pub open spec fn product_spec(s: Seq<usize>) -> int
    decreases s.len(),
{
    if s.len() == 0 {
        1
    } else {
        product_spec(s.drop_last()) * s.last()
    }
}

proof fn lemma_sum_prefix(s: Seq<usize>, k: int)
    requires
        0 <= k <= s.len(),
    ensures
        sum_spec(s.subrange(0, k)) <= sum_spec(s),
    decreases s.len(),
{
    if k < s.len() {
        assert(s.subrange(0, k) =~= s.drop_last().subrange(0, k));
        lemma_sum_prefix(s.drop_last(), k);
    } else {
        assert(s.subrange(0, k) =~= s);
    }
}

/// The sum of the numbers.
pub fn sum(nums: &[usize]) -> (r: usize)
    requires
        sum_spec(nums@) <= usize::MAX,
    ensures
        r == sum_spec(nums@),
{
    let mut r: usize = 0;
    let mut i: usize = 0;
    while i < nums.len()
        invariant
            i <= nums@.len(),
            r == sum_spec(nums@.subrange(0, i as int)),
            sum_spec(nums@) <= usize::MAX,
        decreases nums@.len() - i,
    {
        proof {
            assert(nums@.subrange(0, i + 1).drop_last() =~= nums@.subrange(0, i as int));
            lemma_sum_prefix(nums@, i + 1);
        }
        r = r + nums[i];
        i = i + 1;
    }
    proof {
        assert(nums@.subrange(0, nums@.len() as int) =~= nums@);
    }
    r
}

/// One more factor multiplies the product by it, whatever it is.
pub proof fn lemma_product_push(s: Seq<usize>, x: usize)
    ensures
        product_spec(s.push(x)) == product_spec(s) * x,
{
    assert(s.push(x).drop_last() =~= s);
}

/// A product with a zero factor is zero, and one without is not.
pub proof fn lemma_product_zero(s: Seq<usize>)
    ensures
        product_spec(s) == 0 <==> exists|k: int| 0 <= k < s.len() && s[k] == 0,
        product_spec(s) >= 0,
    decreases s.len(),
{
    if s.len() > 0 {
        let d = s.drop_last();
        lemma_product_zero(d);
        let p = product_spec(d);
        let x = s.last() as int;
        assert(p * x == 0 <==> (p == 0 || x == 0)) by (nonlinear_arith);
        assert(p * x >= 0) by (nonlinear_arith)
            requires
                p >= 0,
                x >= 0,
        ;
        if exists|k: int| 0 <= k < d.len() && d[k] == 0 {
            let k = choose|k: int| 0 <= k < d.len() && d[k] == 0;
            assert(s[k] == 0);
        }
        if exists|k: int| 0 <= k < s.len() && s[k] == 0 {
            let k = choose|k: int| 0 <= k < s.len() && s[k] == 0;
            if k < d.len() {
                assert(d[k] == 0);
            }
        }
    }
}

/// The product of the numbers; the product of none is one.
pub fn product(nums: &[usize]) -> (r: usize)
    requires
        forall|k: int| 0 <= k <= nums@.len() ==> product_spec(#[trigger] nums@.subrange(0, k)) <= usize::MAX,
    ensures
        r == product_spec(nums@),
        r == 0 <==> exists|k: int| 0 <= k < nums@.len() && nums@[k] == 0,
        nums@.len() == 1 ==> r == nums@[0],
{
    proof {
        lemma_product_zero(nums@);
        if nums@.len() == 1 {
            lemma_product_push(Seq::empty(), nums@[0]);
            assert(Seq::<usize>::empty().push(nums@[0]) =~= nums@);
        }
    }
    let mut r: usize = 1;
    let mut i: usize = 0;
    proof {
        assert(nums@.subrange(0, 0) =~= Seq::<usize>::empty());
    }
    while i < nums.len()
        invariant
            i <= nums@.len(),
            r == product_spec(nums@.subrange(0, i as int)),
            forall|k: int| 0 <= k <= nums@.len() ==> product_spec(#[trigger] nums@.subrange(0, k)) <= usize::MAX,
        decreases nums@.len() - i,
    {
        proof {
            assert(nums@.subrange(0, i + 1).drop_last() =~= nums@.subrange(0, i as int));
            assert(product_spec(nums@.subrange(0, i + 1)) <= usize::MAX);
        }
        r = r * nums[i];
        i = i + 1;
    }
    proof {
        assert(nums@.subrange(0, nums@.len() as int) =~= nums@);
    }
    r
}

/// The least of the numbers, none for no numbers.
pub fn minimum(nums: &[usize]) -> (r: Option<usize>)
    ensures
        nums@.len() == 0 <==> r is None,
        r matches Some(m) ==> nums@.contains(m) && forall|k: int| 0 <= k < nums@.len() ==> m <= nums@[k],
{
    if nums.len() == 0 {
        return None;
    }
    let mut m = nums[0];
    let mut i: usize = 1;
    proof {
        assert(nums@.subrange(0, 1)[0] == m);
    }
    while i < nums.len()
        invariant
            1 <= i <= nums@.len(),
            nums@.subrange(0, i as int).contains(m),
            forall|k: int| 0 <= k < i ==> m <= nums@[k],
        decreases nums@.len() - i,
    {
        if nums[i] < m {
            m = nums[i];
            proof {
                assert(nums@.subrange(0, i + 1)[i as int] == m);
            }
        } else {
            proof {
                let w = choose|w: int| 0 <= w < i && nums@.subrange(0, i as int)[w] == m;
                assert(nums@.subrange(0, i + 1)[w] == m);
            }
        }
        i = i + 1;
    }
    proof {
        assert(nums@.subrange(0, nums@.len() as int) =~= nums@);
    }
    Some(m)
}

/// The greatest of the numbers, none for no numbers.
pub fn maximum(nums: &[usize]) -> (r: Option<usize>)
    ensures
        nums@.len() == 0 <==> r is None,
        r matches Some(m) ==> nums@.contains(m) && forall|k: int| 0 <= k < nums@.len() ==> nums@[k] <= m,
{
    if nums.len() == 0 {
        return None;
    }
    let mut m = nums[0];
    let mut i: usize = 1;
    proof {
        assert(nums@.subrange(0, 1)[0] == m);
    }
    while i < nums.len()
        invariant
            1 <= i <= nums@.len(),
            nums@.subrange(0, i as int).contains(m),
            forall|k: int| 0 <= k < i ==> nums@[k] <= m,
        decreases nums@.len() - i,
    {
        if nums[i] >= m {
            m = nums[i];
            proof {
                assert(nums@.subrange(0, i + 1)[i as int] == m);
            }
        } else {
            proof {
                let w = choose|w: int| 0 <= w < i && nums@.subrange(0, i as int)[w] == m;
                assert(nums@.subrange(0, i + 1)[w] == m);
            }
        }
        i = i + 1;
    }
    proof {
        assert(nums@.subrange(0, nums@.len() as int) =~= nums@);
    }
    Some(m)
}

/// A range of numbers that hands them out one at a time, from `start` up
/// to, not including, `end`.
pub struct SampleRange {
    pub start: i32,
    pub end: i32,
}

impl SampleRange {
    /// The next number, or none once the range is used up.
    pub fn next(&mut self) -> (r: Option<i32>)
        ensures
            old(self).start >= old(self).end ==> r is None && *final(self) == *old(self),
            old(self).start < old(self).end ==> r == Some(old(self).start) && final(self).start
                == old(self).start + 1 && final(self).end == old(self).end,
    {
        if self.start >= self.end {
            return None;
        }
        let result = Some(self.start);
        self.start = self.start + 1;
        result
    }

    /// Every number that the range still hands out, in order.
    pub fn drain(&mut self) -> (v: Vec<i32>)
        ensures
            v@.len() == if old(self).start < old(self).end { old(self).end - old(self).start } else { 0 },
            forall|k: int| 0 <= k < v@.len() ==> #[trigger] v@[k] == old(self).start + k,
            final(self).end == old(self).end,
            final(self).start >= final(self).end,
    {
        let mut v: Vec<i32> = Vec::new();
        let ghost s0 = self.start;
        let ghost e0 = self.end;
        loop
            invariant
                self.end == e0,
                s0 < e0 ==> s0 <= self.start <= e0,
                s0 >= e0 ==> self.start == s0,
                v@.len() == self.start - s0,
                forall|k: int| 0 <= k < v@.len() ==> #[trigger] v@[k] == s0 + k,
            ensures
                self.end == e0,
                self.start >= self.end,
                s0 < e0 ==> self.start == e0,
                s0 >= e0 ==> self.start == s0,
                v@.len() == self.start - s0,
                forall|k: int| 0 <= k < v@.len() ==> #[trigger] v@[k] == s0 + k,
            decreases self.end - self.start,
        {
            match self.next() {
                Some(i) => v.push(i),
                None => break,
            }
        }
        v
    }
}

/// Text order: the first differing character decides, by its code point;
/// a proper prefix comes first. For UTF-8 text this is the byte order that
/// `Ord for str` uses.
pub open spec fn text_less(a: Seq<char>, b: Seq<char>) -> bool
    decreases a.len(),
{
    if a.len() == 0 {
        b.len() > 0
    } else if b.len() == 0 {
        false
    } else if a[0] != b[0] {
        (a[0] as u32) < (b[0] as u32)
    } else {
        text_less(a.drop_first(), b.drop_first())
    }
}

/// How two texts stand in text order.
pub enum KeyOrder {
    Before,
    Same,
    After,
}

/// Places `a` against `b` in text order.
pub fn key_order(a: &str, b: &str) -> (r: KeyOrder)
    ensures
        r is Before <==> text_less(a@, b@),
        r is Same <==> a@ == b@,
        r is After <==> text_less(b@, a@),
{
    let n = a.unicode_len();
    let m = b.unicode_len();
    let ghost sa = a@;
    let ghost sb = b@;
    let mut i: usize = 0;
    proof {
        assert(sa.skip(0) =~= sa);
        assert(sb.skip(0) =~= sb);
    }
    while i < n && i < m && a.get_char(i) == b.get_char(i)
        invariant
            n == sa.len(),
            m == sb.len(),
            sa == a@,
            sb == b@,
            i <= n,
            i <= m,
            sa.subrange(0, i as int) == sb.subrange(0, i as int),
            text_less(sa, sb) == text_less(sa.skip(i as int), sb.skip(i as int)),
            text_less(sb, sa) == text_less(sb.skip(i as int), sa.skip(i as int)),
        decreases n - i,
    {
        proof {
            assert(sa.skip(i as int).drop_first() =~= sa.skip(i + 1));
            assert(sb.skip(i as int).drop_first() =~= sb.skip(i + 1));
            assert(sa.subrange(0, i + 1) =~= sa.subrange(0, i as int).push(sa[i as int]));
            assert(sb.subrange(0, i + 1) =~= sb.subrange(0, i as int).push(sb[i as int]));
        }
        i = i + 1;
    }
    if i == n && i == m {
        proof {
            assert(sa =~= sa.subrange(0, i as int));
            assert(sb =~= sb.subrange(0, i as int));
            assert(sa.skip(i as int) =~= Seq::<char>::empty());
            assert(sb.skip(i as int) =~= Seq::<char>::empty());
        }
        KeyOrder::Same
    } else if i == n {
        proof {
            assert(sa.skip(i as int) =~= Seq::<char>::empty());
            assert(sa.len() != sb.len());
        }
        KeyOrder::Before
    } else if i == m {
        proof {
            assert(sb.skip(i as int) =~= Seq::<char>::empty());
            assert(sa.len() != sb.len());
        }
        KeyOrder::After
    } else {
        let ca = a.get_char(i);
        let cb = b.get_char(i);
        proof {
            assert(sa.skip(i as int)[0] == ca);
            assert(sb.skip(i as int)[0] == cb);
            assert(sa[i as int] != sb[i as int]);
        }
        if (ca as u32) < (cb as u32) {
            KeyOrder::Before
        } else {
            KeyOrder::After
        }
    }
}

/// Text order is transitive.
pub proof fn lemma_text_less_transitive(a: Seq<char>, b: Seq<char>, c: Seq<char>)
    requires
        text_less(a, b),
        text_less(b, c),
    ensures
        text_less(a, c),
    decreases a.len(),
{
    if a.len() > 0 && b.len() > 0 && c.len() > 0 && a[0] == b[0] && b[0] == c[0] {
        lemma_text_less_transitive(a.drop_first(), b.drop_first(), c.drop_first());
    }
}

/// No text comes before itself.
pub proof fn lemma_text_less_irreflexive(a: Seq<char>)
    ensures
        !text_less(a, a),
    decreases a.len(),
{
    if a.len() > 0 {
        lemma_text_less_irreflexive(a.drop_first());
    }
}

/// The keys of the entries stand in strictly increasing text order.
pub open spec fn keys_increasing<'a>(es: Seq<(&'a str, Vec<&'a str>)>) -> bool {
    forall|i: int, j: int| 0 <= i < j < es.len() ==> text_less(es[i].0@, es[j].0@)
}

/// The entries after putting `v` under the key `k`: the value of an entry
/// with key `k` is replaced, else a new entry goes in before the first
/// greater key.
pub open spec fn map_insert<'a>(es: Seq<(&'a str, Vec<&'a str>)>, k: &'a str, v: Vec<&'a str>) -> Seq<
    (&'a str, Vec<&'a str>),
>
    decreases es.len(),
{
    if es.len() == 0 {
        seq![(k, v)]
    } else if es[0].0@ == k@ {
        seq![(es[0].0, v)] + es.drop_first()
    } else if text_less(k@, es[0].0@) {
        seq![(k, v)] + es
    } else {
        seq![es[0]] + map_insert(es.drop_first(), k, v)
    }
}

/// The value of the first entry with key `k`, if any.
pub open spec fn map_get<'a>(es: Seq<(&'a str, Vec<&'a str>)>, k: Seq<char>) -> Option<Vec<&'a str>>
    decreases es.len(),
{
    if es.len() == 0 {
        None
    } else if es[0].0@ == k {
        Some(es[0].1)
    } else {
        map_get(es.drop_first(), k)
    }
}

/// After putting `v` under `k`, the key `k` gives `v` and every other key
/// gives what it gave before.
pub proof fn lemma_map_insert_get<'a>(es: Seq<(&'a str, Vec<&'a str>)>, k: &'a str, v: Vec<&'a str>, q: Seq<char>)
    ensures
        map_get(map_insert(es, k, v), k@) == Some(v),
        q != k@ ==> map_get(map_insert(es, k, v), q) == map_get(es, q),
    decreases es.len(),
{
    let r = map_insert(es, k, v);
    if es.len() == 0 {
        assert(r.drop_first() =~= Seq::<(&'a str, Vec<&'a str>)>::empty());
        assert(r[0].0@ == k@);
        if q != k@ {
            assert(map_get(r, q) == map_get(r.drop_first(), q));
        }
    } else if es[0].0@ == k@ {
        assert(r.drop_first() =~= es.drop_first());
        assert(r[0].0@ == k@);
        if q != k@ {
            assert(map_get(r, q) == map_get(r.drop_first(), q));
            assert(map_get(es, q) == map_get(es.drop_first(), q));
        }
    } else if text_less(k@, es[0].0@) {
        assert(r.drop_first() =~= es);
        assert(r[0].0@ == k@);
        if q != k@ {
            assert(map_get(r, q) == map_get(r.drop_first(), q));
        }
    } else {
        lemma_map_insert_get(es.drop_first(), k, v, q);
        assert(r.drop_first() =~= map_insert(es.drop_first(), k, v));
        assert(r[0] == es[0]);
        if es[0].0@ != k@ {
            assert(map_get(r, k@) == map_get(r.drop_first(), k@));
        }
        if q != k@ && es[0].0@ != q {
            assert(map_get(r, q) == map_get(r.drop_first(), q));
            assert(map_get(es, q) == map_get(es.drop_first(), q));
        }
    }
}

/// The values of the entries, one entry after another.
pub open spec fn flat_values<'a>(es: Seq<(&'a str, Vec<&'a str>)>) -> Seq<&'a str>
    decreases es.len(),
{
    if es.len() == 0 {
        Seq::empty()
    } else {
        flat_values(es.drop_last()) + es.last().1@
    }
}

/// How many values the entries hold, all lists together.
pub open spec fn values_count<'a>(es: Seq<(&'a str, Vec<&'a str>)>) -> int
    decreases es.len(),
{
    if es.len() == 0 {
        0
    } else {
        values_count(es.drop_last()) + es.last().1@.len()
    }
}

proof fn lemma_values_count_prefix<'a>(es: Seq<(&'a str, Vec<&'a str>)>, k: int)
    requires
        0 <= k < es.len(),
    ensures
        values_count(es.subrange(0, k + 1)) == values_count(es.subrange(0, k)) + es[k].1@.len(),
        values_count(es.subrange(0, k + 1)) <= values_count(es),
    decreases es.len(),
{
    assert(es.subrange(0, k + 1).drop_last() =~= es.subrange(0, k));
    if k + 1 < es.len() {
        assert(es.drop_last().subrange(0, k + 1) =~= es.subrange(0, k + 1));
        assert(es.drop_last().subrange(0, k) =~= es.subrange(0, k));
        lemma_values_count_prefix(es.drop_last(), k);
    } else {
        assert(es.subrange(0, k + 1) =~= es);
    }
}

/// The values of all entries, listed: every value of every entry, in entry
/// order and in the order of its list. There are as many as the lists hold
/// together, and value `j` of entry `i` stands behind the values of the
/// entries before `i`.
pub proof fn lemma_flat_values_layout<'a>(es: Seq<(&'a str, Vec<&'a str>)>)
    ensures
        flat_values(es).len() == values_count(es),
        forall|i: int, j: int| 0 <= i < es.len() && 0 <= j < es[i].1@.len()
            ==> flat_values(es)[values_count(es.subrange(0, i)) + j] == #[trigger] es[i].1@[j],
    decreases es.len(),
{
    if es.len() > 0 {
        let n = es.len() - 1;
        let d = es.drop_last();
        lemma_flat_values_layout(d);
        assert forall|i: int, j: int| 0 <= i < es.len() && 0 <= j < es[i].1@.len()
            implies flat_values(es)[values_count(es.subrange(0, i)) + j] == #[trigger] es[i].1@[j] by {
            assert(flat_values(es) == flat_values(d) + es.last().1@);
            if i < n {
                assert(es.subrange(0, i) =~= d.subrange(0, i));
                assert(d[i] == es[i]);
                lemma_values_count_prefix(d, i);
                lemma_flat_values_layout(d.subrange(0, i));
                let idx = values_count(d.subrange(0, i)) + j;
                assert(flat_values(d)[idx] == d[i].1@[j]);
                assert(idx < flat_values(d).len());
                assert(flat_values(es)[idx] == flat_values(d)[idx]);
            } else {
                assert(es.subrange(0, i) =~= d);
                assert(es[i] == es.last());
            }
        }
    }
}

/// A new entry behind all others adds its whole list behind all values.
pub proof fn lemma_flat_values_push<'a>(es: Seq<(&'a str, Vec<&'a str>)>, e: (&'a str, Vec<&'a str>))
    ensures
        flat_values(es.push(e)) == flat_values(es) + e.1@,
{
    assert(es.push(e).drop_last() =~= es);
}

/// Putting a list under a key greater than every key of the map lists all
/// the old values, then the whole new list.
pub proof fn lemma_flat_values_insert_last<'a>(es: Seq<(&'a str, Vec<&'a str>)>, k: &'a str, v: Vec<&'a str>)
    requires
        forall|j: int| 0 <= j < es.len() ==> text_less(#[trigger] es[j].0@, k@),
    ensures
        map_insert(es, k, v) == es.push((k, v)),
        flat_values(map_insert(es, k, v)) == flat_values(es) + v@,
{
    lemma_map_insert_skip(es, k, v, es.len() as int);
    assert(es.subrange(es.len() as int, es.len() as int) =~= Seq::<(&'a str, Vec<&'a str>)>::empty());
    assert(es.subrange(0, es.len() as int) =~= es);
    assert(es.subrange(0, es.len() as int) + seq![(k, v)] =~= es.push((k, v)));
    lemma_flat_values_push(es, (k, v));
}

proof fn lemma_map_insert_skip<'a>(es: Seq<(&'a str, Vec<&'a str>)>, k: &'a str, v: Vec<&'a str>, i: int)
    requires
        0 <= i <= es.len(),
        forall|j: int| 0 <= j < i ==> text_less(#[trigger] es[j].0@, k@),
    ensures
        map_insert(es, k, v) == es.subrange(0, i) + map_insert(es.subrange(i, es.len() as int), k, v),
    decreases i,
{
    if i == 0 {
        assert(es.subrange(0, 0) + map_insert(es.subrange(0, es.len() as int), k, v) =~= map_insert(
            es,
            k,
            v,
        )) by {
            assert(es.subrange(0, es.len() as int) =~= es);
        }
    } else {
        lemma_text_less_irreflexive(k@);
        assert(es[0].0@ != k@);
        if text_less(k@, es[0].0@) {
            lemma_text_less_transitive(k@, es[0].0@, k@);
        }
        let d = es.drop_first();
        assert forall|j: int| 0 <= j < i - 1 implies text_less(#[trigger] d[j].0@, k@) by {
            assert(d[j] == es[j + 1]);
        }
        lemma_map_insert_skip(d, k, v, i - 1);
        assert(d.subrange(i - 1, d.len() as int) =~= es.subrange(i, es.len() as int));
        assert(seq![es[0]] + d.subrange(0, i - 1) =~= es.subrange(0, i));
    }
}

proof fn lemma_map_get_skip<'a>(es: Seq<(&'a str, Vec<&'a str>)>, k: Seq<char>, i: int)
    requires
        0 <= i <= es.len(),
        forall|j: int| 0 <= j < i ==> #[trigger] es[j].0@ != k,
    ensures
        map_get(es, k) == map_get(es.subrange(i, es.len() as int), k),
    decreases i,
{
    if i == 0 {
        assert(es.subrange(0, es.len() as int) =~= es);
    } else {
        let d = es.drop_first();
        assert forall|j: int| 0 <= j < i - 1 implies #[trigger] d[j].0@ != k by {
            assert(d[j] == es[j + 1]);
        }
        lemma_map_get_skip(d, k, i - 1);
        assert(d.subrange(i - 1, d.len() as int) =~= es.subrange(i, es.len() as int));
    }
}

proof fn lemma_map_get_absent<'a>(es: Seq<(&'a str, Vec<&'a str>)>, k: Seq<char>)
    requires
        forall|j: int| 0 <= j < es.len() ==> #[trigger] es[j].0@ != k,
    ensures
        map_get(es, k) is None,
    decreases es.len(),
{
    if es.len() > 0 {
        let d = es.drop_first();
        assert forall|j: int| 0 <= j < d.len() implies #[trigger] d[j].0@ != k by {
            assert(d[j] == es[j + 1]);
        }
        lemma_map_get_absent(d, k);
    }
}

/// Putting a value under a key keeps the keys in strictly increasing order.
pub proof fn lemma_map_insert_keeps_order<'a>(es: Seq<(&'a str, Vec<&'a str>)>, k: &'a str, v: Vec<&'a str>)
    requires
        keys_increasing(es),
    ensures
        keys_increasing(map_insert(es, k, v)),
        forall|j: int| 0 <= j < map_insert(es, k, v).len() ==>
            (#[trigger] map_insert(es, k, v)[j]).0@ == k@ || exists|m: int| 0 <= m < es.len() && es[m].0@ == map_insert(es, k, v)[j].0@,
    decreases es.len(),
{
    let r = map_insert(es, k, v);
    if es.len() == 0 {
    } else if es[0].0@ == k@ {
        assert forall|j: int| 0 <= j < r.len() implies (#[trigger] r[j]).0@ == k@ || exists|m: int| 0 <= m < es.len() && es[m].0@ == r[j].0@ by {
            if j > 0 {
                assert(es[j].0@ == r[j].0@);
            }
        }
        assert forall|i: int, j: int| 0 <= i < j < r.len() implies text_less(r[i].0@, r[j].0@) by {
            assert(r[i].0@ == es[i].0@);
            assert(r[j].0@ == es[j].0@);
        }
    } else if text_less(k@, es[0].0@) {
        assert forall|i: int, j: int| 0 <= i < j < r.len() implies text_less(r[i].0@, r[j].0@) by {
            if i == 0 {
                if j > 1 {
                    lemma_text_less_transitive(k@, es[0].0@, es[j - 1].0@);
                }
            } else {
                assert(r[i] == es[i - 1]);
                assert(r[j] == es[j - 1]);
            }
        }
        assert forall|j: int| 0 <= j < r.len() implies (#[trigger] r[j]).0@ == k@ || exists|m: int| 0 <= m < es.len() && es[m].0@ == r[j].0@ by {
            if j > 0 {
                assert(es[j - 1].0@ == r[j].0@);
            }
        }
    } else {
        let d = es.drop_first();
        assert(keys_increasing(d)) by {
            assert forall|i: int, j: int| 0 <= i < j < d.len() implies text_less(d[i].0@, d[j].0@) by {
                assert(d[i] == es[i + 1]);
                assert(d[j] == es[j + 1]);
            }
        }
        lemma_map_insert_keeps_order(d, k, v);
        let t = map_insert(d, k, v);
        assert(r =~= seq![es[0]] + t);
        assert forall|j: int| 0 <= j < r.len() implies (#[trigger] r[j]).0@ == k@ || exists|m: int| 0 <= m < es.len() && es[m].0@ == r[j].0@ by {
            if j == 0 {
                assert(es[0].0@ == r[0].0@);
            } else {
                assert(r[j] == t[j - 1]);
                if t[j - 1].0@ != k@ {
                    let m = choose|m: int| 0 <= m < d.len() && d[m].0@ == t[j - 1].0@;
                    assert(es[m + 1].0@ == r[j].0@);
                }
            }
        }
        assert forall|i: int, j: int| 0 <= i < j < r.len() implies text_less(r[i].0@, r[j].0@) by {
            if i == 0 {
                assert(r[j] == t[j - 1]);
                if t[j - 1].0@ == k@ {
                    lemma_text_less_irreflexive(k@);
                    if !text_less(es[0].0@, k@) {
                        // keys are totally ordered: k is neither equal to nor below es[0]
                        lemma_text_less_total(es[0].0@, k@);
                    }
                } else {
                    let m = choose|m: int| 0 <= m < d.len() && d[m].0@ == t[j - 1].0@;
                    assert(es[m + 1].0@ == r[j].0@);
                }
            } else {
                assert(r[i] == t[i - 1]);
                assert(r[j] == t[j - 1]);
            }
        }
    }
}

/// Of two different texts, one comes before the other.
pub proof fn lemma_text_less_total(a: Seq<char>, b: Seq<char>)
    ensures
        a == b || text_less(a, b) || text_less(b, a),
    decreases a.len(),
{
    if a.len() > 0 && b.len() > 0 && a[0] == b[0] {
        lemma_text_less_total(a.drop_first(), b.drop_first());
        if a.drop_first() == b.drop_first() {
            assert(a =~= seq![a[0]] + a.drop_first());
            assert(b =~= seq![b[0]] + b.drop_first());
        }
    } else if a.len() == 0 && b.len() == 0 {
        assert(a =~= b);
    } else if a.len() > 0 && b.len() > 0 {
        vstd::utf8::char_u32_cast(a[0], a[0] as u32);
        vstd::utf8::char_u32_cast(b[0], b[0] as u32);
        assert((a[0] as u32) != (b[0] as u32));
    }
}

/// A map from text keys to lists of texts whose entries are kept in the
/// text order of their keys, as a `BTreeMap` keeps them.
pub struct TextMap<'a> {
    entries: Vec<(&'a str, Vec<&'a str>)>,
}

impl<'a> View for TextMap<'a> {
    type V = Seq<(&'a str, Vec<&'a str>)>;

    closed spec fn view(&self) -> Seq<(&'a str, Vec<&'a str>)> {
        self.entries@
    }
}

impl<'a> TextMap<'a> {
    /// The keys always stand in strictly increasing text order.
    #[verifier::type_invariant]
    spec fn keys_in_order(self) -> bool {
        keys_increasing(self.entries@)
    }

    /// An empty map.
    pub fn new() -> (m: Self)
        ensures
            m@ == Seq::<(&'a str, Vec<&'a str>)>::empty(),
            keys_increasing(m@),
    {
        TextMap { entries: Vec::new() }
    }

    /// Puts `v` under the key `k`, handing back the value it replaces.
    pub fn insert(&mut self, k: &'a str, v: Vec<&'a str>) -> (old_value: Option<Vec<&'a str>>)
        ensures
            final(self)@ == map_insert(old(self)@, k, v),
            keys_increasing(final(self)@),
            old_value == map_get(old(self)@, k@),
    {
        proof {
            use_type_invariant(&*self);
        }
        let mut entries: Vec<(&'a str, Vec<&'a str>)> = Vec::new();
        std::mem::swap(&mut entries, &mut self.entries);
        let ghost es = entries@;
        proof {
            lemma_map_insert_keeps_order(es, k, v);
        }
        let n = entries.len();
        let mut i: usize = 0;
        while i < n && matches!(key_order(entries[i].0, k), KeyOrder::Before)
            invariant
                n == es.len(),
                entries@ == es,
                i <= n,
                forall|j: int| 0 <= j < i ==> text_less(#[trigger] es[j].0@, k@),
            decreases n - i,
        {
            i = i + 1;
        }
        proof {
            lemma_map_insert_skip(es, k, v, i as int);
            lemma_text_less_irreflexive(k@);
            lemma_map_get_skip(es, k@, i as int);
        }
        let ghost tail = es.subrange(i as int, n as int);
        let mut found = false;
        if i < n {
            proof {
                assert(tail[0] == es[i as int]);
            }
            found = matches!(key_order(entries[i].0, k), KeyOrder::Same);
        }
        if found {
            let (key, old_v) = entries.remove(i);
            entries.insert(i, (key, v));
            proof {
                assert(map_get(tail, k@) == Some(old_v));
                assert(map_insert(tail, k, v) =~= seq![(key, v)] + tail.drop_first());
                assert(entries@ =~= es.subrange(0, i as int) + map_insert(tail, k, v));
            }
            self.entries = entries;
            Some(old_v)
        } else {
            proof {
                assert forall|j: int| 0 <= j < tail.len() implies tail[j].0@ != k@ by {
                    assert(tail[j] == es[i + j]);
                    if j > 0 {
                        lemma_text_less_transitive(k@, es[i as int].0@, es[i + j].0@);
                    }
                }
                lemma_map_get_absent(tail, k@);
            }
            entries.insert(i, (k, v));
            proof {
                if i < n {
                    assert(map_insert(tail, k, v) =~= seq![(k, v)] + tail);
                } else {
                    assert(tail =~= Seq::<(&'a str, Vec<&'a str>)>::empty());
                }
                assert(entries@ =~= es.subrange(0, i as int) + map_insert(tail, k, v));
            }
            self.entries = entries;
            None
        }
    }

    /// The values of all entries, in the text order of their keys.
    pub fn flat_values(&self) -> (out: Vec<&'a str>)
        ensures
            out@ == flat_values(self@),
            out@.len() == values_count(self@),
            forall|i: int, j: int| 0 <= i < self@.len() && 0 <= j < self@[i].1@.len()
                ==> out@[values_count(self@.subrange(0, i)) + j] == #[trigger] self@[i].1@[j],
    {
        proof {
            lemma_flat_values_layout(self@);
        }
        let mut out: Vec<&'a str> = Vec::new();
        let mut i: usize = 0;
        let ghost es = self@;
        while i < self.entries.len()
            invariant
                es == self@,
                i <= es.len(),
                out@ == flat_values(es.subrange(0, i as int)),
            decreases es.len() - i,
        {
            let vals = &self.entries[i].1;
            let mut j: usize = 0;
            let ghost base = out@;
            while j < vals.len()
                invariant
                    es == self@,
                    i < es.len(),
                    *vals == es[i as int].1,
                    j <= vals@.len(),
                    out@ == base + vals@.subrange(0, j as int),
                decreases vals@.len() - j,
            {
                out.push(vals[j]);
                j = j + 1;
                proof {
                    assert(out@ =~= base + vals@.subrange(0, j as int));
                }
            }
            proof {
                assert(es.subrange(0, i + 1).drop_last() =~= es.subrange(0, i as int));
                assert(vals@.subrange(0, vals@.len() as int) =~= vals@);
            }
            i = i + 1;
        }
        proof {
            assert(es.subrange(0, es.len() as int) =~= es);
        }
        out
    }
}

} // verus!
