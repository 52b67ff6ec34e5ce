//! Text as sequences of characters: cutting, joining, numbers and order.

use vstd::prelude::*;

verus! {

/// `String::push`: the character is appended, nothing else changes.
pub assume_specification[ String::push ](s: &mut String, c: char)
    ensures
        final(s)@ == old(s)@.push(c),
;

/// The characters with the Unicode `White_Space` property.
pub open spec fn is_space(c: char) -> bool {
    let code = c as u32;
    ||| 0x9 <= code <= 0xd
    ||| code == 0x20
    ||| code == 0x85
    ||| code == 0xa0
    ||| code == 0x1680
    ||| 0x2000 <= code <= 0x200a
    ||| code == 0x2028
    ||| code == 0x2029
    ||| code == 0x202f
    ||| code == 0x205f
    ||| code == 0x3000
}

/// Whether `c` is white space.
pub fn space(c: char) -> (yes: bool)
    ensures
        yes == is_space(c),
{
    let code: u32 = c as u32;
    (0x9 <= code && code <= 0xd) || code == 0x20 || code == 0x85 || code == 0xa0 || code == 0x1680
        || (0x2000 <= code && code <= 0x200a) || code == 0x2028 || code == 0x2029 || code == 0x202f
        || code == 0x205f || code == 0x3000
}

pub open spec fn is_digit(c: char) -> bool {
    '0' <= c <= '9'
}

pub open spec fn all_digits(s: Seq<char>) -> bool {
    forall|i: int| 0 <= i < s.len() ==> is_digit(#[trigger] s[i])
}

/// Picks the character `sep` alone.
pub open spec fn only(sep: char) -> spec_fn(char) -> bool {
    |c: char| c == sep
}

/// Picks white space.
pub open spec fn white() -> spec_fn(char) -> bool {
    |c: char| is_space(c)
}

/// What stands between the characters that `cut` picks: one piece more than
/// there are such characters.
pub open spec fn pieces(s: Seq<char>, cut: spec_fn(char) -> bool) -> Seq<Seq<char>>
    decreases s.len(),
{
    if s.len() == 0 {
        seq![Seq::<char>::empty()]
    } else {
        let head = pieces(s.drop_last(), cut);
        if cut(s.last()) {
            head.push(Seq::empty())
        } else {
            head.drop_last().push(head.last().push(s.last()))
        }
    }
}

/// The runs of characters that are not white space.
pub open spec fn words(s: Seq<char>) -> Seq<Seq<char>> {
    pieces(s, white()).filter(|w: Seq<char>| w.len() > 0)
}

/// The pieces of `s` between the separators `sep`.
pub open spec fn split_on(s: Seq<char>, sep: char) -> Seq<Seq<char>> {
    pieces(s, only(sep))
}

pub open spec fn without_return(s: Seq<char>) -> Seq<char> {
    if s.len() > 0 && s.last() == '\r' {
        s.drop_last()
    } else {
        s
    }
}

/// The lines of `s`. A line ends with `\n` or `\r\n`; text behind the last line
/// end is a line too, unless it is empty.
pub open spec fn lines_of(s: Seq<char>) -> Seq<Seq<char>> {
    let all = split_on(s, '\n');
    let ended = all.drop_last().map_values(|l: Seq<char>| without_return(l));
    if all.last().len() > 0 {
        ended.push(all.last())
    } else {
        ended
    }
}

pub open spec fn trim_front(s: Seq<char>, cut: spec_fn(char) -> bool) -> Seq<char>
    decreases s.len(),
{
    if s.len() > 0 && cut(s[0]) {
        trim_front(s.drop_first(), cut)
    } else {
        s
    }
}

pub open spec fn trim_back(s: Seq<char>, cut: spec_fn(char) -> bool) -> Seq<char>
    decreases s.len(),
{
    if s.len() > 0 && cut(s.last()) {
        trim_back(s.drop_last(), cut)
    } else {
        s
    }
}

/// `s` without the white space at both its ends.
pub open spec fn trimmed(s: Seq<char>) -> Seq<char> {
    trim_back(trim_front(s, white()), white())
}

/// `part` occurs in `s` as a run of neighbouring characters.
pub open spec fn has(s: Seq<char>, part: Seq<char>) -> bool {
    exists|i: int| 0 <= i <= s.len() - part.len() && #[trigger] s.subrange(i, i + part.len()) == part
}

/// `s` begins with `prefix`.
pub open spec fn begins(s: Seq<char>, prefix: Seq<char>) -> bool {
    prefix.len() <= s.len() && s.take(prefix.len() as int) == prefix
}

/// The entries one after the other, with `sep` between neighbours.
pub open spec fn joined(parts: Seq<Seq<char>>, sep: Seq<char>) -> Seq<char>
    decreases parts.len(),
{
    if parts.len() == 0 {
        Seq::empty()
    } else if parts.len() == 1 {
        parts[0]
    } else {
        joined(parts.drop_last(), sep) + sep + parts.last()
    }
}

/// The decimal digits of `n`, without leading zeros.
pub open spec fn decimal(n: nat) -> Seq<char>
    decreases n,
{
    if n < 10 {
        seq![digit_char(n)]
    } else {
        decimal(n / 10).push(digit_char(n % 10))
    }
}

pub open spec fn digit_char(n: nat) -> char {
    (n + 48) as char
}

/// The decimal digits of `n`, with a minus sign in front where it is negative.
pub open spec fn signed_decimal(n: int) -> Seq<char> {
    if n < 0 {
        "-"@ + decimal((-n) as nat)
    } else {
        decimal(n as nat)
    }
}

/// The number that the digits `s` write.
pub open spec fn digits_value(s: Seq<char>) -> nat
    decreases s.len(),
{
    if s.len() == 0 {
        0
    } else {
        digits_value(s.drop_last()) * 10 + (s.last() as nat - 48) as nat
    }
}

/// The number that `s` writes: digits, with at most one plus sign in front.
pub open spec fn written_nat(s: Seq<char>) -> Option<nat> {
    let digits = if s.len() > 0 && s[0] == '+' {
        s.skip(1)
    } else {
        s
    };
    if digits.len() > 0 && all_digits(digits) {
        Some(digits_value(digits))
    } else {
        None
    }
}

/// The number that `s` writes: digits, with at most one sign in front.
pub open spec fn written_int(s: Seq<char>) -> Option<int> {
    if s.len() > 0 && s[0] == '-' {
        let digits = s.skip(1);
        if digits.len() > 0 && all_digits(digits) {
            Some(-(digits_value(digits) as int))
        } else {
            None
        }
    } else {
        match written_nat(s) {
            Some(n) => Some(n as int),
            None => None,
        }
    }
}

/// The `u64` that `s` writes, if it writes one.
pub open spec fn written_u64(s: Seq<char>) -> Option<u64> {
    match written_nat(s) {
        Some(n) => if n <= u64::MAX {
            Some(n as u64)
        } else {
            None
        },
        None => None,
    }
}

/// The `i64` that `s` writes, if it writes one.
pub open spec fn written_i64(s: Seq<char>) -> Option<i64> {
    match written_int(s) {
        Some(n) => if i64::MIN <= n <= i64::MAX {
            Some(n as i64)
        } else {
            None
        },
        None => None,
    }
}

/// `a` comes before `b` in the order of their characters' code points, a text
/// before every longer text that it begins.
pub open spec fn text_before(a: Seq<char>, b: Seq<char>) -> bool
    decreases a.len(),
{
    if b.len() == 0 {
        false
    } else if a.len() == 0 {
        true
    } else if a[0] != b[0] {
        a[0] < b[0]
    } else {
        text_before(a.drop_first(), b.drop_first())
    }
}

proof fn lemma_not_before_itself(a: Seq<char>)
    ensures
        !text_before(a, a),
    decreases a.len(),
{
    if a.len() > 0 {
        lemma_not_before_itself(a.drop_first());
    }
}

proof fn lemma_one_comes_first(a: Seq<char>, b: Seq<char>)
    ensures
        text_before(a, b) || text_before(b, a) || a == b,
        !(text_before(a, b) && text_before(b, a)),
    decreases a.len(),
{
    if a.len() > 0 && b.len() > 0 {
        lemma_one_comes_first(a.drop_first(), b.drop_first());
        if a[0] == b[0] && a.drop_first() == b.drop_first() {
            assert(a =~= seq![a[0]] + a.drop_first());
            assert(b =~= seq![b[0]] + b.drop_first());
        }
    } else if a.len() == 0 && b.len() == 0 {
        assert(a =~= b);
    }
}

proof fn lemma_before_chains(a: Seq<char>, b: Seq<char>, c: Seq<char>)
    requires
        text_before(a, b),
        text_before(b, c),
    ensures
        text_before(a, c),
    decreases a.len(),
{
    if a.len() > 0 && a[0] == b[0] && b[0] == c[0] {
        lemma_before_chains(a.drop_first(), b.drop_first(), c.drop_first());
    }
}

/// Texts are ordered strictly: no text comes before itself, the order chains,
/// and of two texts that differ one comes first.
pub proof fn law_text_before_is_a_strict_total_order(a: Seq<char>, b: Seq<char>, c: Seq<char>)
    ensures
        !text_before(a, a),
        text_before(a, b) && text_before(b, c) ==> text_before(a, c),
        text_before(a, b) || text_before(b, a) || a == b,
        !(text_before(a, b) && text_before(b, a)),
{
    lemma_not_before_itself(a);
    lemma_one_comes_first(a, b);
    if text_before(a, b) && text_before(b, c) {
        lemma_before_chains(a, b, c);
    }
}

/// The characters of `text`.
pub fn chars_of(text: &str) -> (chars: Vec<char>)
    ensures
        chars@ == text@,
{
    let mut chars: Vec<char> = Vec::new();
    for c in it: text.chars()
        invariant
            it.seq() == text@,
            chars@ == text@.take(it.index() as int),
    {
        chars.push(c);
    }
    assert(text@.take(text@.len() as int) =~= text@);
    chars
}

/// The text made of `chars[from..to]`.
pub fn text_between(chars: &[char], from: usize, to: usize) -> (text: String)
    requires
        from <= to <= chars@.len(),
    ensures
        text@ == chars@.subrange(from as int, to as int),
{
    let mut text = String::new();
    let mut i: usize = from;
    while i < to
        invariant
            from <= i <= to <= chars@.len(),
            text@ == chars@.subrange(from as int, i as int),
        decreases to - i,
    {
        text.push(chars[i]);
        i = i + 1;
        assert(text@ =~= chars@.subrange(from as int, i as int));
    }
    text
}

/// Whether the two texts are the same.
pub fn same_text(a: &str, b: &str) -> (yes: bool)
    ensures
        yes == (a@ == b@),
{
    a.to_owned() == b.to_owned()
}

/// Whether `text` begins with `prefix`.
pub fn text_begins(text: &str, prefix: &str) -> (yes: bool)
    ensures
        yes == begins(text@, prefix@),
{
    let s = chars_of(text);
    let p = chars_of(prefix);
    if s.len() < p.len() {
        return false;
    }
    let mut i: usize = 0;
    while i < p.len()
        invariant
            i <= p@.len() <= s@.len(),
            s@ == text@,
            p@ == prefix@,
            forall|k: int| 0 <= k < i ==> s@[k] == p@[k],
        decreases p@.len() - i,
    {
        if s[i] != p[i] {
            proof {
                assert(text@.take(prefix@.len() as int)[i as int] != prefix@[i as int]);
            }
            return false;
        }
        i = i + 1;
    }
    assert(text@.take(prefix@.len() as int) =~= prefix@);
    true
}

/// Whether `part` occurs in `text`.
pub fn text_has(text: &str, part: &str) -> (yes: bool)
    ensures
        yes == has(text@, part@),
{
    let s = chars_of(text);
    let p = chars_of(part);
    if s.len() < p.len() {
        return false;
    }
    let n: usize = s.len();
    let mut i: usize = 0;
    while n - i >= p.len()
        invariant
            s@ == text@,
            p@ == part@,
            n == s@.len(),
            i <= n,
            forall|k: int| 0 <= k < i ==> #[trigger] s@.subrange(k, k + p@.len()) != p@,
        decreases n - i,
    {
        let mut j: usize = 0;
        while j < p.len() && s[i + j] == p[j]
            invariant
                j <= p@.len(),
                i + p@.len() <= n,
                n == s@.len(),
                forall|k: int| 0 <= k < j ==> s@[i + k] == p@[k],
            decreases p@.len() - j,
        {
            j = j + 1;
        }
        if j == p.len() {
            assert(s@.subrange(i as int, i + p@.len()) =~= p@);
            return true;
        }
        assert(s@.subrange(i as int, i + p@.len())[j as int] != p@[j as int]);
        i = i + 1;
    }
    false
}

proof fn lemma_trim_front_at(s: Seq<char>, cut: spec_fn(char) -> bool, n: int)
    requires
        0 <= n <= s.len(),
        forall|i: int| 0 <= i < n ==> cut(#[trigger] s[i]),
        n < s.len() ==> !cut(s[n]),
    ensures
        trim_front(s, cut) == s.skip(n),
    decreases n,
{
    if n > 0 {
        assert(cut(s[0]));
        let tail = s.drop_first();
        assert forall|i: int| 0 <= i < n - 1 implies cut(#[trigger] tail[i]) by {
            assert(tail[i] == s[i + 1]);
        }
        lemma_trim_front_at(tail, cut, n - 1);
        assert(tail.skip(n - 1) =~= s.skip(n));
    } else {
        assert(s.skip(0) =~= s);
    }
}

proof fn lemma_trim_back_at(s: Seq<char>, cut: spec_fn(char) -> bool, n: int)
    requires
        0 <= n <= s.len(),
        forall|i: int| n <= i < s.len() ==> cut(#[trigger] s[i]),
        n > 0 ==> !cut(s[n - 1]),
    ensures
        trim_back(s, cut) == s.take(n),
    decreases s.len(),
{
    if n < s.len() {
        assert(cut(s.last()));
        lemma_trim_back_at(s.drop_last(), cut, n);
        assert(s.drop_last().take(n) =~= s.take(n));
    } else {
        assert(s.take(n) =~= s);
    }
}

/// `text` without the white space at both its ends.
pub fn trim_text(text: &str) -> (out: String)
    ensures
        out@ == trimmed(text@),
{
    let s = chars_of(text);
    let ghost cut = white();
    let mut from: usize = 0;
    while from < s.len() && space(s[from])
        invariant
            from <= s@.len(),
            cut == white(),
            forall|i: int| 0 <= i < from ==> cut(#[trigger] s@[i]),
        decreases s@.len() - from,
    {
        from = from + 1;
    }
    proof {
        lemma_trim_front_at(s@, cut, from as int);
    }
    let mut to: usize = s.len();
    while to > from && space(s[to - 1])
        invariant
            from <= to <= s@.len(),
            cut == white(),
            forall|i: int| to <= i < s@.len() ==> cut(#[trigger] s@[i]),
        decreases to,
    {
        to = to - 1;
    }
    proof {
        let t = s@.skip(from as int);
        assert forall|i: int| to - from <= i < t.len() implies cut(#[trigger] t[i]) by {
            assert(t[i] == s@[i + from]);
        }
        lemma_trim_back_at(t, cut, to - from);
        assert(t.take(to - from) =~= s@.subrange(from as int, to as int));
    }
    text_between(&s, from, to)
}

/// `text` without the characters `front` that it begins with and the
/// characters `back` that it ends with.
pub fn strip_chars(text: &str, front: char, back: char) -> (out: String)
    ensures
        out@ == trim_back(trim_front(text@, only(front)), only(back)),
{
    let s = chars_of(text);
    let ghost cut = only(front);
    let ghost cut_back = only(back);
    let mut from: usize = 0;
    while from < s.len() && s[from] == front
        invariant
            from <= s@.len(),
            cut == only(front),
            forall|i: int| 0 <= i < from ==> cut(#[trigger] s@[i]),
        decreases s@.len() - from,
    {
        from = from + 1;
    }
    proof {
        lemma_trim_front_at(s@, cut, from as int);
    }
    let mut to: usize = s.len();
    while to > from && s[to - 1] == back
        invariant
            from <= to <= s@.len(),
            cut_back == only(back),
            forall|i: int| to <= i < s@.len() ==> cut_back(#[trigger] s@[i]),
        decreases to,
    {
        to = to - 1;
    }
    proof {
        let t = s@.skip(from as int);
        assert forall|i: int| to - from <= i < t.len() implies cut_back(#[trigger] t[i]) by {
            assert(t[i] == s@[i + from]);
        }
        lemma_trim_back_at(t, cut_back, to - from);
        assert(t.take(to - from) =~= s@.subrange(from as int, to as int));
    }
    text_between(&s, from, to)
}

/// The views of a list of texts.
pub open spec fn texts(list: Seq<String>) -> Seq<Seq<char>> {
    list.map_values(|t: String| t@)
}

/// What the values of a map say.
pub open spec fn value_texts<K>(map: Map<K, String>) -> Map<K, Seq<char>> {
    map.map_values(|s: String| s@)
}

/// The pieces of `text` between the separators `sep`.
pub fn split_text(text: &str, sep: char) -> (out: Vec<String>)
    ensures
        texts(out@) == split_on(text@, sep),
        out@.len() > 0,
{
    let s = chars_of(text);
    let ghost cut = only(sep);
    let mut done: Vec<String> = Vec::new();
    let mut current = String::new();
    let mut i: usize = 0;
    assert(texts(done@).push(current@) =~= pieces(s@.take(0), cut));
    while i < s.len()
        invariant
            i <= s@.len(),
            cut == only(sep),
            texts(done@).push(current@) == pieces(s@.take(i as int), cut),
        decreases s@.len() - i,
    {
        let c = s[i];
        let ghost head = texts(done@);
        let ghost word = current@;
        assert(s@.take(i + 1).drop_last() =~= s@.take(i as int));
        assert(s@.take(i + 1).last() == c);
        assert(head.push(word).drop_last() =~= head);
        if c == sep {
            done.push(current);
            current = String::new();
            assert(texts(done@) =~= head.push(word));
        } else {
            current.push(c);
        }
        i = i + 1;
    }
    assert(s@.take(s@.len() as int) =~= s@);
    let ghost head = texts(done@);
    done.push(current);
    assert(texts(done@) =~= head.push(current@));
    done
}

/// The runs of characters of `text` that are not white space.
pub fn split_words(text: &str) -> (out: Vec<String>)
    ensures
        texts(out@) == words(text@),
{
    let s = chars_of(text);
    let ghost cut = white();
    let ghost kept = |w: Seq<char>| w.len() > 0;
    let ghost mut head: Seq<Seq<char>> = Seq::empty();
    let mut done: Vec<String> = Vec::new();
    let mut current = String::new();
    let mut i: usize = 0;
    assert(head.push(current@) =~= pieces(s@.take(0), cut));
    proof {
        reveal(Seq::filter);
        assert(texts(done@) =~= head.filter(kept));
    }
    while i < s.len()
        invariant
            i <= s@.len(),
            cut == white(),
            kept == (|w: Seq<char>| w.len() > 0),
            head.push(current@) == pieces(s@.take(i as int), cut),
            texts(done@) == head.filter(kept),
        decreases s@.len() - i,
    {
        let c = s[i];
        let ghost word = current@;
        assert(s@.take(i + 1).drop_last() =~= s@.take(i as int));
        assert(s@.take(i + 1).last() == c);
        assert(head.push(word).drop_last() =~= head);
        if space(c) {
            proof {
                reveal(Seq::filter);
                assert(head.push(word).filter(kept) == if kept(word) {
                    head.filter(kept).push(word)
                } else {
                    head.filter(kept)
                });
            }
            if !current.as_str().is_empty() {
                let ghost before = texts(done@);
                done.push(current);
                assert(texts(done@) =~= before.push(word));
            }
            current = String::new();
            proof {
                head = head.push(word);
            }
        } else {
            current.push(c);
        }
        i = i + 1;
    }
    assert(s@.take(s@.len() as int) =~= s@);
    proof {
        reveal(Seq::filter);
        assert(head.push(current@).drop_last() =~= head);
    }
    if !current.as_str().is_empty() {
        let ghost before = texts(done@);
        let ghost word = current@;
        done.push(current);
        assert(texts(done@) =~= before.push(word));
    }
    done
}

/// The lines of `text`.
pub fn split_lines(text: &str) -> (out: Vec<String>)
    ensures
        texts(out@) == lines_of(text@),
{
    let mut pieces_of = split_text(text, '\n');
    let ghost all = texts(pieces_of@);
    let n: usize = pieces_of.len() - 1;
    let mut out: Vec<String> = Vec::new();
    let mut i: usize = 0;
    while i < n
        invariant
            n == pieces_of@.len() - 1,
            all == texts(pieces_of@),
            i <= n,
            texts(out@) == all.take(i as int).map_values(|l: Seq<char>| without_return(l)),
        decreases n - i,
    {
        let line = chars_of(pieces_of[i].as_str());
        let mut to: usize = line.len();
        if to > 0 && line[to - 1] == '\r' {
            to = to - 1;
        }
        let ghost before = texts(out@);
        let piece = text_between(&line, 0, to);
        assert(piece@ =~= without_return(all[i as int]));
        out.push(piece);
        assert(texts(out@) =~= before.push(piece@));
        i = i + 1;
        assert(all.take(i as int) =~= all.take(i - 1).push(all[i - 1]));
        assert(texts(out@) =~= all.take(i as int).map_values(|l: Seq<char>| without_return(l)));
    }
    assert(all.take(n as int) =~= all.drop_last());
    if !pieces_of[n].as_str().is_empty() {
        let ghost before = texts(out@);
        let last = pieces_of[n].clone();
        out.push(last);
        assert(texts(out@) =~= before.push(all.last()));
    }
    out
}

/// The texts one after the other, with `sep` between neighbours.
pub fn join_texts(parts: &Vec<String>, sep: &str) -> (out: String)
    ensures
        out@ == joined(texts(parts@), sep@),
{
    let mut out = String::new();
    let mut i: usize = 0;
    let ghost all = texts(parts@);
    while i < parts.len()
        invariant
            i <= parts@.len(),
            all == texts(parts@),
            out@ == joined(all.take(i as int), sep@),
        decreases parts@.len() - i,
    {
        if i > 0 {
            out.append(sep);
        }
        out.append(parts[i].as_str());
        i = i + 1;
        assert(all.take(i as int).drop_last() =~= all.take(i - 1));
        if i == 1 {
            assert(out@ =~= all[0]);
        }
    }
    assert(all.take(all.len() as int) =~= all);
    out
}

/// Writes the digit `n` at the end of `out`.
pub fn push_digit(out: &mut String, n: u8)
    requires
        n < 10,
    ensures
        final(out)@ == old(out)@.push(digit_char(n as nat)),
{
    out.push((n + 48) as char);
}

/// Writes `n` in decimal at the end of `out`.
pub fn push_u64(out: &mut String, n: u64)
    ensures
        final(out)@ == old(out)@ + decimal(n as nat),
    decreases n,
{
    if n >= 10 {
        push_u64(out, n / 10);
    }
    let ghost head = out@;
    push_digit(out, (n % 10) as u8);
    assert(out@ =~= old(out)@ + decimal(n as nat));
}

/// Writes `n` in decimal at the end of `out`.
pub fn push_i64(out: &mut String, n: i64)
    ensures
        final(out)@ == old(out)@ + signed_decimal(n as int),
{
    if n < 0 {
        out.append("-");
        let ghost head = out@;
        let size: u64 = (-(n as i128)) as u64;
        push_u64(out, size);
        assert(out@ =~= old(out)@ + signed_decimal(n as int));
    } else {
        push_u64(out, n as u64);
    }
}

/// `n` in decimal.
pub fn u64_text(n: u64) -> (out: String)
    ensures
        out@ == decimal(n as nat),
{
    let mut out = String::new();
    push_u64(&mut out, n);
    assert(out@ =~= decimal(n as nat));
    out
}

/// `n` in decimal.
pub fn i64_text(n: i64) -> (out: String)
    ensures
        out@ == signed_decimal(n as int),
{
    let mut out = String::new();
    push_i64(&mut out, n);
    assert(out@ =~= signed_decimal(n as int));
    out
}

/// The number that `chars[from..]` writes in digits, if it is at most `limit`.
fn digits_from(chars: &Vec<char>, from: usize, limit: u64) -> (value: Option<u64>)
    requires
        from <= chars@.len(),
    ensures
        ({
            let s = chars@.skip(from as int);
            match value {
                Some(n) => s.len() > 0 && all_digits(s) && n == digits_value(s) && n <= limit,
                None => s.len() == 0 || !all_digits(s) || digits_value(s) > limit,
            }
        }),
{
    let ghost s = chars@.skip(from as int);
    if from == chars.len() {
        return None;
    }
    let mut value: u64 = 0;
    let mut over = false;
    let mut i: usize = from;
    while i < chars.len()
        invariant
            from <= i <= chars@.len(),
            s == chars@.skip(from as int),
            value <= limit,
            forall|k: int| 0 <= k < i - from ==> is_digit(#[trigger] s[k]),
            !over ==> value == digits_value(s.take(i - from)),
            over ==> digits_value(s.take(i - from)) > limit,
        decreases chars@.len() - i,
    {
        let c = chars[i];
        assert(c == s[i - from]);
        if c < '0' || c > '9' {
            assert(!is_digit(s[i - from]));
            return None;
        }
        let digit: u64 = c as u64 - 48;
        let next: u128 = value as u128 * 10 + digit as u128;
        i = i + 1;
        assert(s.take(i - from).drop_last() =~= s.take(i - from - 1));
        assert(s.take(i - from).last() == c);
        if !over {
            if next > limit as u128 {
                over = true;
            } else {
                value = next as u64;
            }
        }
    }
    assert(s.take(s.len() as int) =~= s);
    if over {
        None
    } else {
        Some(value)
    }
}

/// The `u64` that `text` writes, if it writes one.
pub fn parse_u64(text: &str) -> (value: Option<u64>)
    ensures
        value == written_u64(text@),
{
    let chars = chars_of(text);
    assert(chars@.skip(0) =~= chars@);
    if chars.len() > 0 && chars[0] == '+' {
        digits_from(&chars, 1, u64::MAX)
    } else {
        digits_from(&chars, 0, u64::MAX)
    }
}

/// The `i64` that `text` writes, if it writes one.
pub fn parse_i64(text: &str) -> (value: Option<i64>)
    ensures
        value == written_i64(text@),
{
    let chars = chars_of(text);
    assert(chars@.skip(0) =~= chars@);
    if chars.len() > 0 && chars[0] == '-' {
        match digits_from(&chars, 1, 0x8000_0000_0000_0000) {
            Some(n) => Some((-(n as i128)) as i64),
            None => None,
        }
    } else {
        let from: usize = if chars.len() > 0 && chars[0] == '+' {
            1
        } else {
            0
        };
        match digits_from(&chars, from, 0x7fff_ffff_ffff_ffff) {
            Some(n) => Some(n as i64),
            None => None,
        }
    }
}

/// A number is written in digits, at least one, that stand for it.
pub proof fn lemma_decimal_is_digits(n: nat)
    ensures
        all_digits(decimal(n)),
        decimal(n).len() > 0,
        digits_value(decimal(n)) == n,
    decreases n,
{
    if n >= 10 {
        lemma_decimal_is_digits(n / 10);
        assert(decimal(n).drop_last() =~= decimal(n / 10));
    } else {
        assert(decimal(n).drop_last() =~= Seq::<char>::empty());
        assert(digits_value(Seq::<char>::empty()) == 0);
    }
    assert forall|i: int| 0 <= i < decimal(n).len() implies is_digit(#[trigger] decimal(n)[i]) by {
        if i < decimal(n).len() - 1 {
            assert(decimal(n)[i] == decimal(n / 10)[i]);
        }
    }
}

/// A number that is written in decimal reads back as itself.
pub proof fn law_decimal_reads_back(n: u64, i: i64)
    ensures
        written_u64(decimal(n as nat)) == Some(n),
        written_i64(signed_decimal(i as int)) == Some(i),
{
    lemma_decimal_is_digits(n as nat);
    assert(is_digit(decimal(n as nat)[0]));
    if i < 0 {
        reveal_strlit("-");
        lemma_decimal_is_digits((-i) as nat);
        assert(signed_decimal(i as int).skip(1) =~= decimal((-i) as nat));
    } else {
        lemma_decimal_is_digits(i as nat);
        assert(is_digit(decimal(i as nat)[0]));
    }
}

/// Whether every character of `text` is a decimal digit.
pub fn digits_only(text: &str) -> (yes: bool)
    ensures
        yes == all_digits(text@),
{
    let chars = chars_of(text);
    let mut i: usize = 0;
    while i < chars.len()
        invariant
            i <= chars@.len(),
            chars@ == text@,
            forall|k: int| 0 <= k < i ==> is_digit(#[trigger] text@[k]),
        decreases chars@.len() - i,
    {
        if chars[i] < '0' || chars[i] > '9' {
            assert(!is_digit(text@[i as int]));
            return false;
        }
        i = i + 1;
    }
    true
}

proof fn lemma_text_before_at(a: Seq<char>, b: Seq<char>, n: int)
    requires
        0 <= n <= a.len(),
        n <= b.len(),
        forall|i: int| 0 <= i < n ==> a[i] == b[i],
        n < a.len() && n < b.len() ==> a[n] != b[n],
    ensures
        text_before(a, b) == (n < b.len() && (n == a.len() || a[n] < b[n])),
    decreases n,
{
    if n > 0 {
        assert(a[0] == b[0]);
        lemma_text_before_at(a.drop_first(), b.drop_first(), n - 1);
    }
}

/// Whether `a` comes before `b`.
pub fn text_less(a: &str, b: &str) -> (yes: bool)
    ensures
        yes == text_before(a@, b@),
{
    let x = chars_of(a);
    let y = chars_of(b);
    let mut i: usize = 0;
    while i < x.len() && i < y.len() && x[i] == y[i]
        invariant
            i <= x@.len(),
            i <= y@.len(),
            forall|k: int| 0 <= k < i ==> x@[k] == y@[k],
        decreases x@.len() - i,
    {
        i = i + 1;
    }
    proof {
        lemma_text_before_at(a@, b@, i as int);
    }
    i < y.len() && (i == x.len() || x[i] < y[i])
}

/// The place of the first character `c` in `s`, or its length where there is none.
pub open spec fn first_at(s: Seq<char>, c: char) -> int
    decreases s.len(),
{
    if s.len() == 0 || s[0] == c {
        0
    } else {
        1 + first_at(s.drop_first(), c)
    }
}

pub proof fn lemma_first_at(s: Seq<char>, c: char, n: int)
    requires
        0 <= n <= s.len(),
        forall|i: int| 0 <= i < n ==> s[i] != c,
        n < s.len() ==> s[n] == c,
    ensures
        first_at(s, c) == n,
    decreases s.len(),
{
    if n > 0 {
        assert(s[0] != c);
        lemma_first_at(s.drop_first(), c, n - 1);
    }
}

/// What stands in front of the first `sep` in `text` and what stands behind it,
/// if there is one.
pub fn split_first(text: &str, sep: char) -> (out: Option<(String, String)>)
    ensures
        match out {
            Some((front, back)) => {
                let at = first_at(text@, sep);
                &&& at < text@.len()
                &&& front@ == text@.take(at)
                &&& back@ == text@.skip(at + 1)
            },
            None => first_at(text@, sep) == text@.len(),
        },
{
    let chars = chars_of(text);
    let mut at: usize = 0;
    while at < chars.len() && chars[at] != sep
        invariant
            at <= chars@.len(),
            forall|k: int| 0 <= k < at ==> chars@[k] != sep,
        decreases chars@.len() - at,
    {
        at = at + 1;
    }
    proof {
        lemma_first_at(text@, sep, at as int);
    }
    if at == chars.len() {
        None
    } else {
        let front = text_between(&chars, 0, at);
        let back = text_between(&chars, at + 1, chars.len());
        assert(front@ =~= text@.take(at as int));
        assert(back@ =~= text@.skip(at + 1));
        Some((front, back))
    }
}

/// What stands behind `prefix` in `text`, if it begins with it.
pub fn after_prefix(text: &str, prefix: &str) -> (out: Option<String>)
    ensures
        match out {
            Some(rest) => begins(text@, prefix@) && rest@ == text@.skip(prefix@.len() as int),
            None => !begins(text@, prefix@),
        },
{
    if text_begins(text, prefix) {
        let chars = chars_of(text);
        let head = chars_of(prefix);
        let rest = text_between(&chars, head.len(), chars.len());
        assert(rest@ =~= text@.skip(prefix@.len() as int));
        Some(rest)
    } else {
        None
    }
}

pub proof fn lemma_pieces_grow(s: Seq<char>, more: Seq<char>, cut: spec_fn(char) -> bool)
    requires
        forall|i: int| 0 <= i < more.len() ==> !cut(#[trigger] more[i]),
    ensures
        pieces(s, cut).len() > 0,
        pieces(s + more, cut) == pieces(s, cut).drop_last().push(pieces(s, cut).last() + more),
    decreases s.len() + more.len(),
{
    let all = s + more;
    let head = pieces(s, cut);
    if s.len() > 0 {
        lemma_pieces_grow(s.drop_last(), Seq::empty(), cut);
    }
    if more.len() == 0 {
        assert(all =~= s);
        assert(head.last() + more =~= head.last());
        assert(head =~= head.drop_last().push(head.last()));
    } else {
        let rest = more.drop_last();
        lemma_pieces_grow(s, rest, cut);
        assert(all.drop_last() =~= s + rest);
        assert(all.last() == more[more.len() - 1]);
        assert(head.last() + more =~= (head.last() + rest).push(more.last()));
        let before = pieces(s + rest, cut);
        assert(before.drop_last() =~= head.drop_last());
    }
}

/// Texts joined by a separator that none of them holds split back into them.
pub proof fn law_joined_texts_split_back(parts: Seq<Seq<char>>, sep: char)
    requires
        parts.len() > 0,
        forall|i: int| 0 <= i < parts.len() ==> !(#[trigger] parts[i]).contains(sep),
    ensures
        split_on(joined(parts, seq![sep]), sep) == parts,
    decreases parts.len(),
{
    let cut = only(sep);
    let last = parts.last();
    assert(!parts[parts.len() - 1].contains(sep));
    assert forall|i: int| 0 <= i < last.len() implies !cut(#[trigger] last[i]) by {
        if last[i] == sep {
            assert(last.contains(sep));
        }
    }
    if parts.len() == 1 {
        let none = Seq::<char>::empty();
        lemma_pieces_grow(none, last, cut);
        assert(none + last =~= last);
        assert(split_on(joined(parts, seq![sep]), sep) =~= parts);
    } else {
        let rest = parts.drop_last();
        assert forall|i: int| 0 <= i < rest.len() implies !(#[trigger] rest[i]).contains(sep) by {
            assert(rest[i] == parts[i]);
        }
        law_joined_texts_split_back(rest, sep);
        let head = joined(rest, seq![sep]) + seq![sep];
        assert(head.drop_last() =~= joined(rest, seq![sep]));
        assert(pieces(head, cut) == rest.push(Seq::empty()));
        lemma_pieces_grow(head, last, cut);
        assert(Seq::<char>::empty() + last =~= last);
        assert(split_on(joined(parts, seq![sep]), sep) =~= parts);
    }
}

/// Text that neither begins nor ends with white space is not cut by trimming.
pub proof fn lemma_trimmed_keeps(s: Seq<char>)
    requires
        s.len() > 0 ==> !is_space(s[0]) && !is_space(s.last()),
    ensures
        trimmed(s) == s,
{
}

/// A written number is not empty, and holds digits and at most a minus sign.
pub proof fn lemma_signed_decimal_chars(n: int)
    ensures
        signed_decimal(n).len() > 0,
        forall|i: int|
            0 <= i < signed_decimal(n).len() ==> is_digit(#[trigger] signed_decimal(n)[i])
                || signed_decimal(n)[i] == '-',
{
    reveal_strlit("-");
    if n < 0 {
        lemma_decimal_is_digits((-n) as nat);
    } else {
        lemma_decimal_is_digits(n as nat);
    }
}

/// `n` spaces.
pub open spec fn spaces(n: nat) -> Seq<char> {
    Seq::new(n, |i: int| ' ')
}

/// Trimming takes padding off again.
pub proof fn lemma_trimmed_drops_padding(n: nat, s: Seq<char>)
    requires
        s.len() > 0,
        !is_space(s[0]),
        !is_space(s.last()),
    ensures
        trimmed(spaces(n) + s) == s,
    decreases n,
{
    let padded = spaces(n) + s;
    if n > 0 {
        lemma_trimmed_drops_padding((n - 1) as nat, s);
        assert(padded[0] == ' ');
        assert(padded.drop_first() =~= spaces((n - 1) as nat) + s);
    } else {
        assert(padded =~= s);
        lemma_trimmed_keeps(s);
    }
}

/// `text` with spaces in front of it, `width` characters long where it is
/// shorter.
pub fn pad_left(text: &str, width: usize) -> (out: String)
    ensures
        out@ == spaces(
            (if text@.len() < width {
                width - text@.len()
            } else {
                0
            }) as nat,
        ) + text@,
{
    let len: usize = chars_of(text).len();
    let mut out = String::new();
    let mut i: usize = len;
    while i < width
        invariant
            len <= i,
            i <= width || i == len,
            out@ == spaces((i - len) as nat),
        decreases width - i,
    {
        out.push(' ');
        i = i + 1;
        assert(out@ =~= spaces((i - len) as nat));
    }
    out.append(text);
    out
}

/// `text` with spaces behind it, `width` characters long where it is shorter.
pub fn pad_right(text: &str, width: usize) -> (out: String)
    ensures
        out@ == text@ + spaces(
            (if text@.len() < width {
                width - text@.len()
            } else {
                0
            }) as nat,
        ),
{
    let len: usize = chars_of(text).len();
    let mut out = text.to_owned();
    let mut i: usize = len;
    assert(out@ =~= text@ + spaces(0));
    while i < width
        invariant
            len <= i,
            i <= width || i == len,
            out@ == text@ + spaces((i - len) as nat),
        decreases width - i,
    {
        out.push(' ');
        i = i + 1;
        assert(out@ =~= text@ + spaces((i - len) as nat));
    }
    out
}

/// Words with single spaces between them read back as those words.
pub proof fn law_spaced_words_read_back(parts: Seq<Seq<char>>)
    requires
        forall|i: int| 0 <= i < parts.len() ==> (#[trigger] parts[i]).len() > 0,
        forall|i: int, k: int|
            0 <= i < parts.len() && 0 <= k < parts[i].len() ==> !is_space(#[trigger] parts[i][k]),
    ensures
        words(joined(parts, " "@)) == parts,
{
    let full = |w: Seq<char>| w.len() > 0;
    let line = joined(parts, " "@);
    reveal_strlit(" ");
    assert(" "@ =~= seq![' ']);
    if parts.len() == 0 {
        reveal(Seq::filter);
        let none = pieces(line, white());
        assert(none =~= seq![Seq::<char>::empty()]);
        let before = Seq::<Seq<char>>::empty();
        assert(none.drop_last() =~= before);
        assert(before.filter(full) =~= before);
        assert(!full(none.last()));
        assert(none.filter(full) =~= parts);
    } else {
        lemma_spaced_pieces(parts);
        lemma_all_kept(parts, full);
    }
}

proof fn lemma_all_kept<T>(items: Seq<T>, keep: spec_fn(T) -> bool)
    requires
        forall|i: int| 0 <= i < items.len() ==> keep(#[trigger] items[i]),
    ensures
        items.filter(keep) == items,
    decreases items.len(),
{
    reveal(Seq::filter);
    if items.len() > 0 {
        let rest = items.drop_last();
        assert forall|i: int| 0 <= i < rest.len() implies keep(#[trigger] rest[i]) by {
            assert(rest[i] == items[i]);
        }
        lemma_all_kept(rest, keep);
        assert(items[items.len() - 1] == items.last());
        assert(rest.push(items.last()) =~= items);
    } else {
        assert(items.filter(keep) =~= items);
    }
}

proof fn lemma_spaced_pieces(parts: Seq<Seq<char>>)
    requires
        parts.len() > 0,
        forall|i: int, k: int|
            0 <= i < parts.len() && 0 <= k < parts[i].len() ==> !is_space(#[trigger] parts[i][k]),
    ensures
        pieces(joined(parts, seq![' ']), white()) == parts,
    decreases parts.len(),
{
    let cut = white();
    let last = parts.last();
    assert(parts[parts.len() - 1] == last);
    assert forall|i: int| 0 <= i < last.len() implies !cut(#[trigger] last[i]) by {
        assert(!is_space(parts[parts.len() - 1][i]));
    }
    if parts.len() == 1 {
        let none = Seq::<char>::empty();
        lemma_pieces_grow(none, last, cut);
        assert(none + last =~= last);
        assert(pieces(joined(parts, seq![' ']), cut) =~= parts);
    } else {
        let rest = parts.drop_last();
        assert forall|i: int, k: int|
            0 <= i < rest.len() && 0 <= k < rest[i].len() implies !is_space(
            #[trigger] rest[i][k],
        ) by {
            assert(rest[i] == parts[i]);
            assert(!is_space(parts[i][k]));
        }
        lemma_spaced_pieces(rest);
        let head = joined(rest, seq![' ']) + seq![' '];
        assert(head.drop_last() =~= joined(rest, seq![' ']));
        assert(is_space(' '));
        assert(pieces(head, cut) == rest.push(Seq::empty()));
        lemma_pieces_grow(head, last, cut);
        assert(Seq::<char>::empty() + last =~= last);
        assert(pieces(joined(parts, seq![' ']), cut) =~= parts);
    }
}

/// A text comes before another where it ends first, or has the smaller character
/// at the first place where they differ.
pub proof fn law_text_before_goes_by_the_first_difference(a: Seq<char>, b: Seq<char>, n: int)
    requires
        0 <= n <= a.len(),
        n <= b.len(),
        forall|i: int| 0 <= i < n ==> #[trigger] a[i] == b[i],
        n < a.len() && n < b.len() ==> a[n] != b[n],
        n == a.len() || n == b.len() || a[n] != b[n],
    ensures
        text_before(a, b) <==> (n == a.len() && n < b.len()) || (n < a.len() && n < b.len() && a[n]
            < b[n]),
{
    lemma_text_before_at(a, b, n);
}

/// Trimming takes the white space off both ends and leaves the rest as it is.
pub proof fn law_trimming_takes_white_space_off(front: Seq<char>, s: Seq<char>, back: Seq<char>)
    requires
        forall|i: int| 0 <= i < front.len() ==> is_space(#[trigger] front[i]),
        forall|i: int| 0 <= i < back.len() ==> is_space(#[trigger] back[i]),
        s.len() > 0 ==> !is_space(s[0]) && !is_space(s.last()),
    ensures
        trimmed(front + s + back) == s,
{
    let all = front + s + back;
    let cut = white();
    if s.len() == 0 {
        assert forall|i: int| 0 <= i < all.len() implies cut(#[trigger] all[i]) by {
            if i < front.len() {
                assert(all[i] == front[i]);
            } else {
                assert(all[i] == back[i - front.len()]);
            }
        }
        lemma_trim_front_at(all, cut, all.len() as int);
        assert(trimmed(all) =~= s);
    } else {
        assert forall|i: int| 0 <= i < front.len() implies cut(#[trigger] all[i]) by {
            assert(all[i] == front[i]);
        }
        assert(all[front.len() as int] == s[0]);
        lemma_trim_front_at(all, cut, front.len() as int);
        let tail = all.skip(front.len() as int);
        assert(tail =~= s + back);
        assert forall|i: int| s.len() <= i < tail.len() implies cut(#[trigger] tail[i]) by {
            assert(tail[i] == back[i - s.len()]);
        }
        assert(tail[s.len() - 1] == s.last());
        lemma_trim_back_at(tail, cut, s.len() as int);
        assert(tail.take(s.len() as int) =~= s);
    }
}

/// Lines that each end in a line feed read back as those lines.
pub proof fn law_lines_read_back(lines: Seq<Seq<char>>)
    requires
        lines.len() > 0,
        forall|i: int| 0 <= i < lines.len() ==> !(#[trigger] lines[i]).contains('\n'),
        forall|i: int|
            0 <= i < lines.len() && (#[trigger] lines[i]).len() > 0 ==> lines[i].last() != '\r',
    ensures
        lines_of(joined(lines, "\n"@) + "\n"@) == lines,
{
    reveal_strlit("\n");
    assert("\n"@ =~= seq!['\n']);
    law_joined_texts_split_back(lines, '\n');
    let body = joined(lines, seq!['\n']);
    let whole = body + seq!['\n'];
    assert(whole.drop_last() =~= body);
    let all = split_on(whole, '\n');
    assert(all == lines.push(Seq::empty()));
    let ended = all.drop_last().map_values(|l: Seq<char>| without_return(l));
    assert(all.drop_last() =~= lines);
    assert(ended =~= lines);
}

/// Nothing is left of a text by trimming exactly where it is all white space.
pub proof fn lemma_trimmed_is_empty(s: Seq<char>)
    ensures
        trimmed(s).len() == 0 <==> forall|i: int|
            0 <= i < s.len() ==> is_space(#[trigger] s[i]),
    decreases s.len(),
{
    if s.len() > 0 && is_space(s[0]) {
        let rest = s.drop_first();
        lemma_trimmed_is_empty(rest);
        assert(trimmed(s) == trimmed(rest));
        if trimmed(s).len() == 0 {
            assert forall|i: int| 0 <= i < s.len() implies is_space(#[trigger] s[i]) by {
                if i > 0 {
                    assert(rest[i - 1] == s[i]);
                }
            }
        } else {
            let k = choose|k: int| 0 <= k < rest.len() && !is_space(#[trigger] rest[k]);
            assert(s[k + 1] == rest[k]);
        }
    } else if s.len() > 0 {
        lemma_trim_back_keeps_front(s);
    }
}

proof fn lemma_trim_back_keeps_front(s: Seq<char>)
    requires
        s.len() > 0,
        !is_space(s[0]),
    ensures
        trim_back(s, white()).len() > 0,
    decreases s.len(),
{
    if is_space(s.last()) {
        lemma_trim_back_keeps_front(s.drop_last());
    }
}

/// A number of more than one digit does not begin with a zero.
pub proof fn lemma_decimal_has_no_leading_zero(n: nat)
    ensures
        decimal(n).len() > 1 ==> decimal(n)[0] != '0',
        n > 0 ==> decimal(n)[0] != '0',
    decreases n,
{
    if n >= 10 {
        lemma_decimal_has_no_leading_zero(n / 10);
        lemma_decimal_is_digits(n / 10);
        assert(decimal(n)[0] == decimal(n / 10)[0]);
    }
}

/// A text has another exactly where it is that one with something, or nothing, in
/// front of it and behind it.
pub proof fn law_text_has_what_stands_in_it(s: Seq<char>, part: Seq<char>)
    ensures
        has(s, part) <==> exists|front: Seq<char>, back: Seq<char>|
            s == #[trigger] (front + part + back),
{
    if has(s, part) {
        let i = choose|i: int|
            0 <= i <= s.len() - part.len() && #[trigger] s.subrange(i, i + part.len()) == part;
        let (front, back) = (s.take(i), s.skip(i + part.len()));
        assert(s =~= front + part + back) by {
            assert(forall|k: int|
                i <= k < i + part.len() ==> s[k] == s.subrange(i, i + part.len())[k - i]);
        }
    }
    if exists|front: Seq<char>, back: Seq<char>| s == #[trigger] (front + part + back) {
        let (front, back) = choose|front: Seq<char>, back: Seq<char>|
            s == #[trigger] (front + part + back);
        let i = front.len() as int;
        assert(s.subrange(i, i + part.len()) =~= part);
    }
}

/// A text begins with another exactly where it is that one with something, or
/// nothing, behind it.
pub proof fn law_text_begins_with_its_front(s: Seq<char>, prefix: Seq<char>)
    ensures
        begins(s, prefix) <==> exists|back: Seq<char>| s == #[trigger] (prefix + back),
{
    if begins(s, prefix) {
        let back = s.skip(prefix.len() as int);
        assert(s =~= prefix + back) by {
            assert(forall|k: int|
                0 <= k < prefix.len() ==> s[k] == s.take(prefix.len() as int)[k]);
        }
    }
    if exists|back: Seq<char>| s == #[trigger] (prefix + back) {
        let back = choose|back: Seq<char>| s == #[trigger] (prefix + back);
        assert(s.take(prefix.len() as int) =~= prefix);
    }
}

/// Texts are joined in their order, with the separator between two of them and
/// nowhere else.
pub proof fn law_separators_stand_between_texts(
    parts: Seq<Seq<char>>,
    more: Seq<char>,
    sep: Seq<char>,
)
    ensures
        joined(Seq::empty(), sep) == Seq::<char>::empty(),
        joined(seq![more], sep) == more,
        parts.len() > 0 ==> joined(parts.push(more), sep) == joined(parts, sep) + sep + more,
{
    assert(parts.push(more).drop_last() =~= parts);
}

/// A count is read exactly from digits, at least one, that stand for what 64 bits
/// hold, with or without a plus sign in front.
pub proof fn law_only_counts_read_as_counts(s: Seq<char>, n: nat)
    ensures
        s.len() == 0 ==> written_u64(s) is None,
        forall|i: int|
            0 < i < s.len() && !('0' <= #[trigger] s[i] <= '9') ==> written_u64(s) is None,
        s.len() > 0 && !('0' <= s[0] <= '9') && s[0] != '+' ==> written_u64(s) is None,
        n <= 0xffff_ffff_ffff_ffff ==> written_u64(decimal(n)) == Some(n as u64) && written_u64(
            seq!['+'] + decimal(n),
        ) == Some(n as u64),
        n > 0xffff_ffff_ffff_ffff ==> written_u64(decimal(n)) is None,
{
    lemma_decimal_is_digits(n);
    let signed = seq!['+'] + decimal(n);
    assert(signed.skip(1) =~= decimal(n));
    assert(is_digit(decimal(n)[0]));
    let digits = if s.len() > 0 && s[0] == '+' {
        s.skip(1)
    } else {
        s
    };
    assert forall|i: int|
        0 < i < s.len() && !('0' <= #[trigger] s[i] <= '9') implies written_u64(s) is None by {
        let k = if s[0] == '+' {
            i - 1
        } else {
            i
        };
        assert(digits[k] == s[i]);
        assert(!is_digit(digits[k]));
    }
    if s.len() > 0 && !('0' <= s[0] <= '9') && s[0] != '+' {
        assert(!is_digit(digits[0]));
    }
}

/// A signed number is read from digits with or without a sign in front, and from
/// nothing else, and only where a signed 64-bit integer holds it.
pub proof fn law_only_numbers_read_as_numbers(s: Seq<char>, n: nat)
    ensures
        s.len() == 0 ==> written_i64(s) is None,
        forall|i: int|
            0 < i < s.len() && !('0' <= #[trigger] s[i] <= '9') ==> written_i64(s) is None,
        s.len() > 0 && !('0' <= s[0] <= '9') && s[0] != '+' && s[0] != '-' ==> written_i64(
            s,
        ) is None,
        n <= 0x7fff_ffff_ffff_ffff ==> written_i64(decimal(n)) == Some(n as i64),
        n > 0x7fff_ffff_ffff_ffff ==> written_i64(decimal(n)) is None,
        n <= 0x8000_0000_0000_0000 ==> written_i64(seq!['-'] + decimal(n)) == Some(
            (-(n as int)) as i64,
        ),
        n > 0x8000_0000_0000_0000 ==> written_i64(seq!['-'] + decimal(n)) is None,
{
    lemma_decimal_is_digits(n);
    assert(is_digit(decimal(n)[0]));
    let below = seq!['-'] + decimal(n);
    assert(below.skip(1) =~= decimal(n));
    assert forall|i: int|
        0 < i < s.len() && !('0' <= #[trigger] s[i] <= '9') implies written_i64(s) is None by {
        if s[0] == '-' || s[0] == '+' {
            assert(s.skip(1)[i - 1] == s[i]);
            assert(!is_digit(s.skip(1)[i - 1]));
        } else {
            assert(!is_digit(s[i]));
        }
    }
    if s.len() > 0 && !('0' <= s[0] <= '9') && s[0] != '+' && s[0] != '-' {
        assert(!is_digit(s[0]));
    }
}

/// A line may end in a carriage return and a line feed, and the last one in nothing.
pub proof fn law_line_ends_are_cut(first: Seq<char>, last: Seq<char>)
    requires
        !first.contains('\n'),
        !last.contains('\n'),
        first.len() > 0 ==> first.last() != '\r',
        last.len() > 0,
    ensures
        lines_of(first + seq!['\r', '\n'] + last) == seq![first, last],
        lines_of(first + seq!['\n'] + last) == seq![first, last],
{
    let returned = first.push('\r');
    assert(!returned.contains('\n')) by {
        if returned.contains('\n') {
            let i = choose|i: int| 0 <= i < returned.len() && returned[i] == '\n';
            assert(first[i] == '\n');
        }
    }
    let both = seq![returned, last];
    law_joined_texts_split_back(both, '\n');
    law_separators_stand_between_texts(seq![returned], last, seq!['\n']);
    law_separators_stand_between_texts(Seq::empty(), returned, seq!['\n']);
    assert(both =~= seq![returned].push(last));
    assert(joined(both, seq!['\n']) =~= first + seq!['\r', '\n'] + last);
    assert(without_return(returned) =~= first);
    assert(lines_of(first + seq!['\r', '\n'] + last) =~= seq![first, last]);
    let plain = seq![first, last];
    law_joined_texts_split_back(plain, '\n');
    law_separators_stand_between_texts(seq![first], last, seq!['\n']);
    law_separators_stand_between_texts(Seq::empty(), first, seq!['\n']);
    assert(plain =~= seq![first].push(last));
    assert(joined(plain, seq!['\n']) =~= first + seq!['\n'] + last);
    assert(lines_of(first + seq!['\n'] + last) =~= seq![first, last]);
}

/// White space is what Unicode calls so: the controls from the tab to the carriage
/// return, the next line, the space and its no-break, ogham, en to hair, narrow,
/// mathematical and ideographic kinds, and the line and paragraph separators.
pub proof fn law_white_space_is_that_of_unicode(c: char)
    ensures
        is_space(c) <==> {
            ||| '\t' <= c <= '\r'
            ||| c == '\u{85}'
            ||| c == ' ' || c == '\u{a0}' || c == '\u{1680}'
            ||| '\u{2000}' <= c <= '\u{200a}'
            ||| c == '\u{2028}' || c == '\u{2029}'
            ||| c == '\u{202f}' || c == '\u{205f}' || c == '\u{3000}'
        },
{
}

} // verus!
