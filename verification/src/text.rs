//! Text building blocks: decimal numbers, joining, replacing, indenting and
//! quoting, each with its meaning stated over sequences of characters.

use vstd::arithmetic::div_mod::{
    lemma_basic_div, lemma_div_decreases, lemma_div_non_zero, lemma_small_mod,
};
use vstd::prelude::*;
use vstd::std_specs::iter::IteratorSpec;

verus! {

/// The character that stands for the decimal digit `d`.
pub open spec fn digit_char(d: int) -> char {
    if d == 0 {
        '0'
    } else if d == 1 {
        '1'
    } else if d == 2 {
        '2'
    } else if d == 3 {
        '3'
    } else if d == 4 {
        '4'
    } else if d == 5 {
        '5'
    } else if d == 6 {
        '6'
    } else if d == 7 {
        '7'
    } else if d == 8 {
        '8'
    } else if d == 9 {
        '9'
    } else if d == 10 {
        'a'
    } else if d == 11 {
        'b'
    } else if d == 12 {
        'c'
    } else if d == 13 {
        'd'
    } else if d == 14 {
        'e'
    } else {
        'f'
    }
}

/// The notation of `n` in the given base (2 to 16), without leading zeros.
pub open spec fn numeral_text(n: nat, base: nat) -> Seq<char>
    decreases n,
    via numeral_text_terminates
{
    if n < base || base < 2 {
        seq![digit_char(n as int)]
    } else {
        numeral_text(n / base, base).push(digit_char((n % base) as int))
    }
}

#[via_fn]
proof fn numeral_text_terminates(n: nat, base: nat) {
    if !(n < base || base < 2) {
        lemma_div_decreases(n as int, base as int);
    }
}

/// The decimal notation of `n`, without leading zeros.
pub open spec fn decimal_text(n: nat) -> Seq<char> {
    numeral_text(n, 10)
}

/// The hexadecimal notation of `n`, in lower case and without leading zeros.
pub open spec fn hexadecimal_text(n: nat) -> Seq<char> {
    numeral_text(n, 16)
}

/// `s` with every occurrence of `from` replaced by `to`.
pub open spec fn replace_text(s: Seq<char>, from: char, to: Seq<char>) -> Seq<char>
    decreases s.len(),
{
    if s.len() == 0 {
        Seq::empty()
    } else if s.last() == from {
        replace_text(s.drop_last(), from, to) + to
    } else {
        replace_text(s.drop_last(), from, to).push(s.last())
    }
}

/// The parts in order, with `sep` between each two neighbours.
pub open spec fn join_text(parts: Seq<Seq<char>>, sep: Seq<char>) -> Seq<char>
    decreases parts.len(),
{
    if parts.len() == 0 {
        Seq::empty()
    } else if parts.len() == 1 {
        parts[0]
    } else {
        join_text(parts.drop_last(), sep) + sep + parts.last()
    }
}

/// `s` with `indentation` in front of each of its lines; the empty text stays empty.
pub open spec fn indent_text(s: Seq<char>, indentation: Seq<char>) -> Seq<char> {
    if s.len() == 0 {
        Seq::empty()
    } else {
        indentation + replace_text(s, '\n', seq!['\n'] + indentation)
    }
}

/// `s` with a backslash in front of every backslash and every double quote.
pub open spec fn escape_text(s: Seq<char>) -> Seq<char> {
    replace_text(replace_text(s, '\\', seq!['\\', '\\']), '"', seq!['\\', '"'])
}

/// `s` escaped and set between double quotes.
pub open spec fn quote_text(s: Seq<char>) -> Seq<char> {
    seq!['"'] + escape_text(s) + seq!['"']
}

/// `s` with every backslash taken away that stands in front of another
/// character, which stays: the reverse of [`escape_text`].
pub open spec fn unescape_text(s: Seq<char>) -> Seq<char>
    decreases s.len(),
{
    if s.len() == 0 {
        Seq::empty()
    } else if s[0] == '\\' && s.len() >= 2 {
        seq![s[1]] + unescape_text(s.skip(2))
    } else {
        seq![s[0]] + unescape_text(s.skip(1))
    }
}

/// What stands between the double quotes of `s`, unescaped, if `s` begins and
/// ends with a double quote: the reverse of [`quote_text`].
pub open spec fn unquote_text(s: Seq<char>) -> Option<Seq<char>> {
    if s.len() >= 2 && s[0] == '"' && s.last() == '"' {
        Some(unescape_text(s.subrange(1, s.len() - 1)))
    } else {
        None
    }
}

/// Replacing in a text of two parts is replacing in each part.
pub proof fn lemma_replace_text_concat(a: Seq<char>, b: Seq<char>, from: char, to: Seq<char>)
    ensures
        replace_text(a + b, from, to) == replace_text(a, from, to) + replace_text(b, from, to),
    decreases b.len(),
{
    if b.len() == 0 {
        assert(a + b =~= a);
        assert(replace_text(a, from, to) + replace_text(b, from, to) =~= replace_text(
            a,
            from,
            to,
        ));
    } else {
        lemma_replace_text_concat(a, b.drop_last(), from, to);
        assert((a + b).drop_last() =~= a + b.drop_last());
        assert((a + b).last() == b.last());
        if b.last() == from {
            assert(replace_text(a + b, from, to) =~= replace_text(a, from, to) + replace_text(
                b,
                from,
                to,
            ));
        } else {
            assert(replace_text(a + b, from, to) =~= replace_text(a, from, to) + replace_text(
                b,
                from,
                to,
            ));
        }
    }
}

/// Escaping a text of two parts is escaping each part.
pub proof fn lemma_escape_text_concat(a: Seq<char>, b: Seq<char>)
    ensures
        escape_text(a + b) == escape_text(a) + escape_text(b),
{
    let doubled = seq!['\\', '\\'];
    let quoted = seq!['\\', '"'];
    lemma_replace_text_concat(a, b, '\\', doubled);
    lemma_replace_text_concat(
        replace_text(a, '\\', doubled),
        replace_text(b, '\\', doubled),
        '"',
        quoted,
    );
}

/// What replacing makes of a single character.
pub proof fn lemma_replace_text_single(c: char, from: char, to: Seq<char>)
    ensures
        replace_text(seq![c], from, to) == (if c == from {
            to
        } else {
            seq![c]
        }),
{
    reveal_with_fuel(replace_text, 2);
    let one = seq![c];
    assert(one.drop_last() =~= Seq::<char>::empty());
    assert(one.last() == c);
    if c == from {
        assert(Seq::<char>::empty() + to =~= to);
    } else {
        assert(Seq::<char>::empty().push(c) =~= one);
    }
}

/// What escaping makes of a single character.
pub proof fn lemma_escape_text_single(c: char)
    ensures
        escape_text(seq![c]) == (if c == '\\' {
            seq!['\\', '\\']
        } else if c == '"' {
            seq!['\\', '"']
        } else {
            seq![c]
        }),
{
    let doubled = seq!['\\', '\\'];
    let quoted = seq!['\\', '"'];
    lemma_replace_text_single(c, '\\', doubled);
    if c == '\\' {
        assert(doubled =~= seq!['\\'] + seq!['\\']);
        lemma_replace_text_concat(seq!['\\'], seq!['\\'], '"', quoted);
        lemma_replace_text_single('\\', '"', quoted);
    } else {
        lemma_replace_text_single(c, '"', quoted);
    }
}

/// A text comes back from its escaped form as it was.
pub proof fn lemma_unescape_escaped(s: Seq<char>)
    ensures
        unescape_text(escape_text(s)) == s,
    decreases s.len(),
{
    if s.len() == 0 {
        assert(escape_text(s) =~= Seq::<char>::empty());
    } else {
        let c = s[0];
        let rest = s.skip(1);
        assert(s =~= seq![c] + rest);
        lemma_escape_text_concat(seq![c], rest);
        lemma_escape_text_single(c);
        lemma_unescape_escaped(rest);
        let escaped = escape_text(s);
        if c == '\\' || c == '"' {
            assert(escaped.skip(2) =~= escape_text(rest));
            assert(unescape_text(escaped) =~= seq![c] + rest);
        } else {
            assert(escaped.skip(1) =~= escape_text(rest));
            assert(unescape_text(escaped) =~= seq![c] + rest);
        }
    }
}

/// A text comes back from its quoted form as it was: what a string literal
/// reads as in a query says exactly what the literal holds.
pub proof fn lemma_unquote_quoted(s: Seq<char>)
    ensures
        unquote_text(quote_text(s)) == Some(s),
{
    let quoted = quote_text(s);
    assert(quoted.subrange(1, quoted.len() - 1) =~= escape_text(s));
    lemma_unescape_escaped(s);
}

/// Whether `a` comes before `b` in the order of texts: character by
/// character, by the numbers of the characters, a text before its extensions.
pub open spec fn text_precedes(a: Seq<char>, b: Seq<char>) -> bool
    decreases a.len(),
{
    if b.len() == 0 {
        false
    } else if a.len() == 0 {
        true
    } else if a[0] == b[0] {
        text_precedes(a.drop_first(), b.drop_first())
    } else {
        (a[0] as u32) < (b[0] as u32)
    }
}

/// Of two texts that differ, one comes before the other.
pub proof fn lemma_text_order_is_total(a: Seq<char>, b: Seq<char>)
    ensures
        a == b || text_precedes(a, b) || text_precedes(b, a),
        !(text_precedes(a, b) && text_precedes(b, a)),
        !text_precedes(a, a),
    decreases a.len(),
{
    if a.len() > 0 && b.len() > 0 {
        if a[0] == b[0] {
            lemma_text_order_is_total(a.drop_first(), b.drop_first());
            if a.drop_first() == b.drop_first() {
                assert(a =~= seq![a[0]] + a.drop_first());
                assert(b =~= seq![b[0]] + b.drop_first());
            }
        } else {
            vstd::utf8::char_u32_cast(a[0], a[0] as u32);
            vstd::utf8::char_u32_cast(b[0], b[0] as u32);
        }
    } else if a.len() == 0 && b.len() == 0 {
        assert(a =~= b);
    }
    if a.len() > 0 {
        lemma_text_order_is_total(a.drop_first(), a.drop_first());
    }
}

/// The views of the strings in `parts`, in order.
pub open spec fn views_of(parts: Seq<String>) -> Seq<Seq<char>> {
    Seq::new(parts.len(), |i: int| parts[i]@)
}

/// `String::push` of std: appends the one character `c` to `s`.
#[verifier::external_body]
pub(crate) fn push_char(s: &mut String, c: char)
    ensures
        final(s)@ == old(s)@.push(c),
{
    s.push(c)
}

fn digit_of(d: u64) -> (c: char)
    requires
        d < 16,
    ensures
        c == digit_char(d as int),
{
    if d == 0 {
        '0'
    } else if d == 1 {
        '1'
    } else if d == 2 {
        '2'
    } else if d == 3 {
        '3'
    } else if d == 4 {
        '4'
    } else if d == 5 {
        '5'
    } else if d == 6 {
        '6'
    } else if d == 7 {
        '7'
    } else if d == 8 {
        '8'
    } else if d == 9 {
        '9'
    } else if d == 10 {
        'a'
    } else if d == 11 {
        'b'
    } else if d == 12 {
        'c'
    } else if d == 13 {
        'd'
    } else if d == 14 {
        'e'
    } else {
        'f'
    }
}

proof fn lemma_numeral_step(n: nat, base: nat)
    requires
        2 <= base,
    ensures
        n % base < base,
        n < base ==> n / base == 0 && n % base == n,
        n >= base ==> 0 < n / base < n,
{
    if n < base {
        lemma_basic_div(n as int, base as int);
        lemma_small_mod(n, base);
    } else {
        lemma_div_non_zero(n as int, base as int);
        lemma_div_decreases(n as int, base as int);
    }
}

/// The notation of `n` in the given base.
pub fn numeral(n: u64, base: u64) -> (s: String)
    requires
        2 <= base <= 16,
    ensures
        s@ == numeral_text(n as nat, base as nat),
{
    let mut digits: Vec<char> = Vec::new();
    proof {
        lemma_numeral_step(n as nat, base as nat);
    }
    let mut rest: u64 = n / base;
    digits.push(digit_of(n % base));
    assert(digits@.reverse() =~= seq![digit_char((n % base) as int)]);
    while rest > 0
        invariant
            2 <= base <= 16,
            digits@.len() > 0,
            numeral_text(n as nat, base as nat) == (if rest == 0 {
                Seq::<char>::empty()
            } else {
                numeral_text(rest as nat, base as nat)
            }) + digits@.reverse(),
        decreases rest,
    {
        let ghost before = digits@;
        proof {
            lemma_numeral_step(rest as nat, base as nat);
        }
        digits.push(digit_of(rest % base));
        proof {
            assert(digits@.reverse() =~= seq![digit_char((rest % base) as int)] + before.reverse());
            if rest >= base {
                assert(numeral_text(rest as nat, base as nat) == numeral_text(
                    (rest / base) as nat,
                    base as nat,
                ).push(digit_char((rest % base) as int)));
                assert(numeral_text(n as nat, base as nat) =~= numeral_text(
                    (rest / base) as nat,
                    base as nat,
                ) + digits@.reverse());
            } else {
                assert(numeral_text(n as nat, base as nat) =~= Seq::<char>::empty()
                    + digits@.reverse());
            }
        }
        rest = rest / base;
    }
    let mut out = String::new();
    let mut i: usize = digits.len();
    while i > 0
        invariant
            i <= digits@.len(),
            out@ == digits@.reverse().take(digits@.len() - i),
        decreases i,
    {
        i -= 1;
        push_char(&mut out, digits[i]);
        assert(out@ =~= digits@.reverse().take(digits@.len() - i));
    }
    assert(out@ =~= digits@.reverse());
    assert(numeral_text(n as nat, base as nat) =~= digits@.reverse());
    out
}

/// The decimal notation of `n`.
pub fn decimal(n: u64) -> (s: String)
    ensures
        s@ == decimal_text(n as nat),
{
    numeral(n, 10)
}

/// The hexadecimal notation of `n`.
pub fn hexadecimal(n: u64) -> (s: String)
    ensures
        s@ == hexadecimal_text(n as nat),
{
    numeral(n, 16)
}

/// `s` with every occurrence of the character `from` replaced by `to`.
pub fn replace_char(s: &str, from: char, to: &str) -> (r: String)
    ensures
        r@ == replace_text(s@, from, to@),
{
    broadcast use vstd::string::group_string_axioms;

    let mut out = String::new();
    let mut it = s.chars();
    let ghost mut done: Seq<char> = Seq::empty();
    loop
        invariant
            it.obeys_prophetic_iter_laws(),
            it.decrease() is Some,
            done + it.remaining() == s@,
            out@ == replace_text(done, from, to@),
        ensures
            out@ == replace_text(s@, from, to@),
        decreases it.decrease()->0,
    {
        match it.next() {
            Some(c) => {
                proof {
                    let extended = done.push(c);
                    assert(extended.drop_last() =~= done);
                    assert(extended.last() == c);
                    assert(extended + it.remaining() =~= s@);
                    done = extended;
                }
                if c == from {
                    out.append(to);
                } else {
                    push_char(&mut out, c);
                }
            },
            None => {
                assert(done =~= s@);
                break;
            },
        }
    }
    out
}

/// The parts in order, with `sep` between each two neighbours.
pub fn join(parts: &Vec<String>, sep: &str) -> (r: String)
    ensures
        r@ == join_text(views_of(parts@), sep@),
{
    let mut out = String::new();
    let mut i: usize = 0;
    while i < parts.len()
        invariant
            i <= parts@.len(),
            out@ == join_text(views_of(parts@).take(i as int), sep@),
        decreases parts@.len() - i,
    {
        let ghost prefix = views_of(parts@).take(i as int);
        let ghost longer = views_of(parts@).take(i + 1);
        proof {
            assert(longer.drop_last() =~= prefix);
            assert(longer.last() == parts@[i as int]@);
            if i == 0 {
                assert(longer[0] == parts@[0]@);
            }
        }
        if i > 0 {
            out.append(sep);
        }
        out.append(parts[i].as_str());
        proof {
            if i == 0 {
                assert(out@ =~= parts@[0]@);
            }
        }
        i += 1;
    }
    assert(views_of(parts@).take(i as int) =~= views_of(parts@));
    out
}

/// `input` with `indentation` in front of each of its lines.
pub fn indent(input: &str, indentation: &str) -> (r: String)
    ensures
        r@ == indent_text(input@, indentation@),
{
    let mut lead = String::new();
    push_char(&mut lead, '\n');
    lead.append(indentation);
    assert(lead@ =~= seq!['\n'] + indentation@);
    let body = replace_char(input, '\n', lead.as_str());
    let mut out = String::new();
    if input.is_empty() {
        assert(replace_text(input@, '\n', lead@) =~= Seq::<char>::empty());
        return out;
    }
    out.append(indentation);
    out.append(body.as_str());
    out
}

/// `s` between double quotes, with `\` and `"` escaped by a backslash.
pub fn quote(s: &str) -> (r: String)
    ensures
        r@ == quote_text(s@),
{
    let mut backslashes = String::new();
    push_char(&mut backslashes, '\\');
    push_char(&mut backslashes, '\\');
    assert(backslashes@ =~= seq!['\\', '\\']);
    let mut escaped_quote = String::new();
    push_char(&mut escaped_quote, '\\');
    push_char(&mut escaped_quote, '"');
    assert(escaped_quote@ =~= seq!['\\', '"']);
    let first = replace_char(s, '\\', backslashes.as_str());
    let second = replace_char(first.as_str(), '"', escaped_quote.as_str());
    let mut out = String::new();
    push_char(&mut out, '"');
    out.append(second.as_str());
    push_char(&mut out, '"');
    assert(out@ =~= quote_text(s@));
    out
}

/// Whether `a` comes before `b` in the order of texts.
pub fn precedes(a: &str, b: &str) -> (r: bool)
    ensures
        r == text_precedes(a@, b@),
{
    broadcast use vstd::string::group_string_axioms;

    let mut left = a.chars();
    let mut right = b.chars();
    loop
        invariant
            left.obeys_prophetic_iter_laws(),
            right.obeys_prophetic_iter_laws(),
            left.decrease() is Some,
            right.decrease() is Some,
            text_precedes(a@, b@) == text_precedes(left.remaining(), right.remaining()),
        decreases left.decrease()->0,
    {
        let ghost rest_left = left.remaining();
        let ghost rest_right = right.remaining();
        match right.next() {
            None => {
                return false;
            },
            Some(d) => match left.next() {
                None => {
                    return true;
                },
                Some(c) => {
                    if c != d {
                        return (c as u32) < (d as u32);
                    }
                },
            },
        }
    }
}

} // verus!
