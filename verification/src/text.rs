//! Building SQL text: quoting, joining and number rendering.

use vstd::prelude::*;
use vstd::string::*;

verus! {

/// `String::push` appends the given character and changes nothing else.
pub assume_specification[ std::string::String::push ](s: &mut std::string::String, c: char)
    ensures
        final(s)@ == old(s)@.push(c),
;

/// The contents of a list of strings.
pub open spec fn texts(list: Seq<String>) -> Seq<Seq<char>> {
    list.map_values(|s: String| s@)
}

/// `s` with every character of `marks` written twice in a row.
pub open spec fn doubled(s: Seq<char>, marks: Set<char>) -> Seq<char>
    decreases s.len(),
{
    if s.len() == 0 {
        Seq::empty()
    } else if marks.contains(s.last()) {
        doubled(s.drop_last(), marks).push(s.last()).push(s.last())
    } else {
        doubled(s.drop_last(), marks).push(s.last())
    }
}

/// `s` between two `q`, with every `q` inside it written twice.
pub open spec fn enclosed(s: Seq<char>, q: char) -> Seq<char> {
    seq![q] + doubled(s, set![q]) + seq![q]
}

/// `s` with a backslash in front of every double quote.
pub open spec fn backslashed(s: Seq<char>) -> Seq<char>
    decreases s.len(),
{
    if s.len() == 0 {
        Seq::empty()
    } else if s.last() == '"' {
        backslashed(s.drop_last()).push('\\').push('"')
    } else {
        backslashed(s.drop_last()).push(s.last())
    }
}

/// `s` as shown to a reader: between double quotes, with inner double quotes escaped.
pub open spec fn quoted_text(s: Seq<char>) -> Seq<char> {
    seq!['"'] + backslashed(s) + seq!['"']
}

/// Every element of `parts`, each with `sep` in front of it.
pub open spec fn preceded(parts: Seq<Seq<char>>, sep: Seq<char>) -> Seq<char>
    decreases parts.len(),
{
    if parts.len() == 0 {
        Seq::empty()
    } else {
        preceded(parts.drop_last(), sep) + sep + parts.last()
    }
}

/// The elements of `parts` in order, with `sep` between neighbours.
pub open spec fn joined(parts: Seq<Seq<char>>, sep: Seq<char>) -> Seq<char> {
    if parts.len() == 0 {
        Seq::empty()
    } else {
        parts[0] + preceded(parts.skip(1), sep)
    }
}

/// The decimal digit for `d`.
pub open spec fn digit(d: nat) -> char {
    (48 + d) as char
}

/// `n` in decimal notation, without leading zeros.
pub open spec fn decimal(n: nat) -> Seq<char>
    decreases n,
{
    if n < 10 {
        seq![digit(n)]
    } else {
        decimal(n / 10).push(digit(n % 10))
    }
}

/// Renders `n` in decimal notation.
pub fn decimal_text(n: u128) -> (r: String)
    ensures
        r@ == decimal(n as nat),
    decreases n,
{
    let d: u8 = (n % 10) as u8;
    let c = (48u8 + d) as char;
    if n < 10 {
        let mut r = String::new();
        r.push(c);
        r
    } else {
        let mut r = decimal_text(n / 10);
        r.push(c);
        r
    }
}

/// Encloses `s` in `q`, writing every `q` inside it twice.
fn enclose(s: &str, q: char) -> (r: String)
    ensures
        r@ == enclosed(s@, q),
{
    let mut r = String::new();
    r.push(q);
    let ghost marks = set![q];
    for c in it: s.chars()
        invariant
            it.seq() == s@,
            marks == set![q],
            r@ == seq![q] + doubled(s@.take(it.index()), marks),
    {
        proof {
            assert(s@.take(it.index() + 1).drop_last() =~= s@.take(it.index()));
        }
        if c == q {
            r.push(q);
        }
        r.push(c);
    }
    proof {
        assert(s@.take(s@.len() as int) =~= s@);
    }
    r.push(q);
    r
}

/// Quotes a MySQL identifier: backticks around it, with inner backticks doubled.
pub fn quote_identifier(identifier: &str) -> (r: String)
    ensures
        r@ == enclosed(identifier@, '`'),
{
    enclose(identifier, '`')
}

/// Renders a name for a message: double quotes around it, with inner double quotes escaped by
/// a backslash.
pub fn quoted(s: &str) -> (r: String)
    ensures
        r@ == quoted_text(s@),
{
    let mut r = String::new();
    r.push('"');
    for c in it: s.chars()
        invariant
            it.seq() == s@,
            r@ == seq!['"'] + backslashed(s@.take(it.index())),
    {
        proof {
            assert(s@.take(it.index() + 1).drop_last() =~= s@.take(it.index()));
        }
        if c == '"' {
            r.push('\\');
        }
        r.push(c);
    }
    proof {
        assert(s@.take(s@.len() as int) =~= s@);
    }
    r.push('"');
    r
}

/// Joins `parts` with `sep` between neighbours.
pub fn join(parts: &[String], sep: &str) -> (r: String)
    ensures
        r@ == joined(texts(parts@), sep@),
{
    let ghost all = texts(parts@);
    if parts.len() == 0 {
        return String::new();
    }
    let mut r = parts[0].clone();
    let mut i: usize = 1;
    while i < parts.len()
        invariant
            1 <= i <= parts@.len(),
            all == texts(parts@),
            r@ == all[0] + preceded(all.subrange(1, i as int), sep@),
        decreases parts@.len() - i,
    {
        proof {
            assert(all.subrange(1, i + 1).drop_last() =~= all.subrange(1, i as int));
        }
        r.append(sep);
        r.append(parts[i].as_str());
        i += 1;
    }
    proof {
        assert(all.skip(1) =~= all.subrange(1, all.len() as int));
    }
    r
}

/// Reads the rest of a quoted token whose opening `q` has been consumed: two equal characters of
/// `marks` in a row stand for one, and the first `q` on its own ends the token. Gives the token's
/// contents and what follows it, or `None` if the token is not well formed.
pub open spec fn scan_body(t: Seq<char>, q: char, marks: Set<char>) -> Option<
    (Seq<char>, Seq<char>),
>
    decreases t.len(),
{
    if t.len() == 0 {
        None
    } else if !marks.contains(t[0]) {
        match scan_body(t.skip(1), q, marks) {
            Some((body, rest)) => Some((seq![t[0]] + body, rest)),
            None => None,
        }
    } else if t.len() >= 2 && t[1] == t[0] {
        match scan_body(t.skip(2), q, marks) {
            Some((body, rest)) => Some((seq![t[0]] + body, rest)),
            None => None,
        }
    } else if t[0] == q {
        Some((Seq::empty(), t.skip(1)))
    } else {
        None
    }
}

/// Reads one token quoted with `q` off the front of `t`.
pub open spec fn scan_quoted(t: Seq<char>, q: char) -> Option<(Seq<char>, Seq<char>)> {
    if t.len() > 0 && t[0] == q {
        scan_body(t.skip(1), q, set![q])
    } else {
        None
    }
}

/// How [`doubled`] treats the first character.
proof fn lemma_doubled_first(s: Seq<char>, marks: Set<char>)
    requires
        s.len() > 0,
    ensures
        doubled(s, marks) == (if marks.contains(s[0]) {
            seq![s[0], s[0]]
        } else {
            seq![s[0]]
        }) + doubled(s.skip(1), marks),
    decreases s.len(),
{
    if s.len() == 1 {
        assert(s.drop_last() =~= Seq::<char>::empty());
        assert(s.skip(1) =~= Seq::<char>::empty());
        reveal_with_fuel(doubled, 2);
        assert(doubled(s, marks) =~= (if marks.contains(s[0]) {
            seq![s[0], s[0]]
        } else {
            seq![s[0]]
        }) + doubled(s.skip(1), marks));
    } else {
        lemma_doubled_first(s.drop_last(), marks);
        assert(s.drop_last().skip(1) =~= s.skip(1).drop_last());
        assert(s.skip(1).last() == s.last());
    }
}

/// What [`doubled`] wrote reads back, up to the `q` that ends it.
pub proof fn lemma_scan_body(s: Seq<char>, q: char, marks: Set<char>, rest: Seq<char>)
    requires
        marks.contains(q),
        rest.len() == 0 || rest[0] != q,
    ensures
        scan_body(doubled(s, marks) + seq![q] + rest, q, marks) == Some((s, rest)),
    decreases s.len(),
{
    let t = doubled(s, marks) + seq![q] + rest;
    if s.len() == 0 {
        assert(t.skip(1) =~= rest);
        assert(s =~= Seq::empty());
    } else {
        lemma_doubled_first(s, marks);
        lemma_scan_body(s.skip(1), q, marks, rest);
        let tail = doubled(s.skip(1), marks) + seq![q] + rest;
        assert(s =~= seq![s[0]] + s.skip(1));
        if marks.contains(s[0]) {
            assert(t.skip(2) =~= tail);
        } else {
            assert(t.skip(1) =~= tail);
        }
    }
}

/// A quoted identifier reads back as exactly the identifier, wherever it is spliced into SQL
/// text, as long as the text after it does not go on with the quote character: nothing inside
/// the identifier can end the token early, and nothing after it is swallowed.
pub proof fn law_enclosed_reads_back(s: Seq<char>, q: char, rest: Seq<char>)
    requires
        rest.len() == 0 || rest[0] != q,
    ensures
        scan_quoted(enclosed(s, q) + rest, q) == Some((s, rest)),
{
    lemma_scan_body(s, q, set![q], rest);
    let t = enclosed(s, q) + rest;
    assert(t.skip(1) =~= doubled(s, set![q]) + seq![q] + rest);
}

/// Two identifiers that are quoted to the same text are the same identifier.
pub proof fn law_enclosed_is_injective(a: Seq<char>, b: Seq<char>, q: char)
    requires
        enclosed(a, q) == enclosed(b, q),
    ensures
        a == b,
{
    let none = Seq::<char>::empty();
    law_enclosed_reads_back(a, q, none);
    law_enclosed_reads_back(b, q, none);
}

/// `t` without `word` at its front, if it starts with it.
pub open spec fn after(t: Seq<char>, word: Seq<char>) -> Option<Seq<char>> {
    if word.len() <= t.len() && t.take(word.len() as int) == word {
        Some(t.skip(word.len() as int))
    } else {
        None
    }
}

/// What follows a word is found after it.
pub proof fn lemma_after(word: Seq<char>, rest: Seq<char>)
    ensures
        after(word + rest, word) == Some(rest),
{
    assert((word + rest).take(word.len() as int) =~= word);
    assert((word + rest).skip(word.len() as int) =~= rest);
}

/// `t` is made up of `parts`, one after the other.
pub open spec fn reads_as(t: Seq<char>, parts: Seq<Seq<char>>) -> bool
    decreases parts.len(),
{
    if parts.len() == 0 {
        t.len() == 0
    } else {
        after(t, parts[0]) matches Some(rest) && reads_as(rest, parts.skip(1))
    }
}

proof fn lemma_reads_as(first: Seq<char>, parts: Seq<Seq<char>>, rest: Seq<char>)
    requires
        parts.len() > 0,
        parts[0] == first,
        reads_as(rest, parts.skip(1)),
    ensures
        reads_as(first + rest, parts),
{
    lemma_after(first, rest);
}

/// A text of three parts reads as the three.
pub proof fn lemma_three_parts(a: Seq<char>, b: Seq<char>, c: Seq<char>)
    ensures
        reads_as(a + b + c, seq![a, b, c]),
{
    let none = Seq::<char>::empty();
    let all = seq![a, b, c];
    assert(all.skip(1) =~= seq![b, c]);
    assert(all.skip(1).skip(1) =~= seq![c]);
    assert(all.skip(1).skip(1).skip(1) =~= Seq::<Seq<char>>::empty());
    assert(c + none =~= c);
    lemma_reads_as(c, seq![c], none);
    lemma_reads_as(b, seq![b, c], c);
    lemma_reads_as(a, all, b + c);
    assert(a + (b + c) =~= a + b + c);
}

/// The number that `s` denotes in decimal notation, if it does denote one: digits, with a zero in
/// front only if it is the only digit.
pub open spec fn number_of(s: Seq<char>) -> Option<nat>
    decreases s.len(),
{
    if s.len() == 0 || !('0' <= s.last() <= '9') {
        None
    } else {
        let d = (s.last() as int - '0' as int) as nat;
        if s.len() == 1 {
            Some(d)
        } else {
            match number_of(s.drop_last()) {
                Some(n) => if n == 0 {
                    None
                } else {
                    Some(n * 10 + d)
                },
                None => None,
            }
        }
    }
}

/// A number in decimal notation reads back as the number.
pub proof fn law_decimal_reads_back(n: nat)
    ensures
        number_of(decimal(n)) == Some(n),
    decreases n,
{
    let d = n % 10;
    assert(digit(d) as int == 48 + d);
    if n >= 10 {
        law_decimal_reads_back(n / 10);
        assert(decimal(n).drop_last() =~= decimal(n / 10));
        assert(decimal(n).last() == digit(d));
        assert((n / 10) * 10 + d == n);
        assert(decimal(n / 10).len() >= 1);
    }
}

/// Different numbers are written differently.
pub proof fn law_decimal_is_injective(m: nat, n: nat)
    requires
        decimal(m) == decimal(n),
    ensures
        m == n,
{
    law_decimal_reads_back(m);
    law_decimal_reads_back(n);
}

/// A name shown to a reader stands between double quotes, and the text between them is made up
/// character by character: a double quote has a backslash in front of it, and any other character
/// stands for itself. What is shown of a name in two parts is what is shown of the parts.
pub proof fn law_quoting_goes_by_characters(a: Seq<char>, c: char, b: Seq<char>)
    ensures
        quoted_text(a + b).len() == quoted_text(a).len() + quoted_text(b).len() - 2,
        quoted_text(a)[0] == '"',
        quoted_text(a).last() == '"',
        quoted_text(a + b).drop_first().drop_last() == quoted_text(a).drop_first().drop_last()
            + quoted_text(b).drop_first().drop_last(),
        quoted_text(seq![c]) == (if c == '"' {
            seq!['"', '\\', '"', '"']
        } else {
            seq!['"', c, '"']
        }),
{
    lemma_backslashed_add(a, b);
    assert(quoted_text(a + b).drop_first().drop_last() =~= backslashed(a + b));
    assert(quoted_text(a).drop_first().drop_last() =~= backslashed(a));
    assert(quoted_text(b).drop_first().drop_last() =~= backslashed(b));
    let s = seq![c];
    assert(s.drop_last() =~= Seq::<char>::empty());
    assert(s.last() == c);
    assert(backslashed(Seq::<char>::empty()) =~= Seq::<char>::empty());
    if c == '"' {
        assert(quoted_text(s) =~= seq!['"', '\\', '"', '"']);
    } else {
        assert(quoted_text(s) =~= seq!['"', c, '"']);
    }
}

proof fn lemma_backslashed_add(a: Seq<char>, b: Seq<char>)
    ensures
        backslashed(a + b) == backslashed(a) + backslashed(b),
    decreases b.len(),
{
    if b.len() == 0 {
        assert(a + b =~= a);
        assert(backslashed(b) =~= Seq::<char>::empty());
        assert(backslashed(a) + backslashed(b) =~= backslashed(a));
    } else {
        lemma_backslashed_add(a, b.drop_last());
        assert((a + b).drop_last() =~= a + b.drop_last());
        assert(backslashed(a + b) =~= backslashed(a) + backslashed(b));
    }
}

/// Joining goes on part by part: nothing for no parts, a single part as it is, and one part more
/// after the separator.
pub proof fn law_joining_goes_by_parts(parts: Seq<Seq<char>>, part: Seq<char>, sep: Seq<char>)
    ensures
        joined(Seq::<Seq<char>>::empty(), sep) == Seq::<char>::empty(),
        joined(seq![part], sep) == part,
        parts.len() > 0 ==> joined(parts.push(part), sep) == joined(parts, sep) + sep + part,
{
    let one = seq![part];
    assert(one.skip(1) =~= Seq::<Seq<char>>::empty());
    assert(joined(one, sep) =~= part);
    if parts.len() > 0 {
        let tail = parts.push(part).skip(1);
        assert(tail =~= parts.skip(1).push(part));
        assert(tail.drop_last() =~= parts.skip(1));
        assert(joined(parts.push(part), sep) =~= joined(parts, sep) + sep + part);
    }
}

/// Joining two parts or more starts with the first part and the separator.
pub proof fn lemma_joined_first(parts: Seq<Seq<char>>, sep: Seq<char>)
    requires
        parts.len() >= 2,
    ensures
        joined(parts, sep) == parts[0] + sep + joined(parts.skip(1), sep),
    decreases parts.len(),
{
    let last = parts.last();
    let init = parts.drop_last();
    assert(parts =~= init.push(last));
    law_joining_goes_by_parts(init, last, sep);
    if init.len() == 1 {
        assert(init =~= seq![parts[0]]);
        assert(parts.skip(1) =~= seq![last]);
        law_joining_goes_by_parts(init, parts[0], sep);
        assert(joined(parts, sep) =~= parts[0] + sep + joined(parts.skip(1), sep));
    } else {
        lemma_joined_first(init, sep);
        assert(parts.skip(1) =~= init.skip(1).push(last));
        law_joining_goes_by_parts(init.skip(1), last, sep);
        assert(joined(parts, sep) =~= parts[0] + sep + joined(parts.skip(1), sep));
    }
}

/// The contents of a list of strings are those of its strings, in order.
pub proof fn law_texts_go_by_position(list: Seq<String>, i: int)
    requires
        0 <= i < list.len(),
    ensures
        texts(list).len() == list.len(),
        texts(list)[i] == list[i]@,
{
}

} // verus!
