use vstd::prelude::*;

verus! {

broadcast use vstd::string::group_string_axioms, vstd::seq::group_seq_axioms;

/// The ten decimal digits, by value.
pub open spec fn digits() -> Seq<char> {
    seq!['0', '1', '2', '3', '4', '5', '6', '7', '8', '9']
}

/// Base-10 rendering of `n`, without leading zeros.
pub open spec fn decimal(n: nat) -> Seq<char>
    decreases n,
{
    if n < 10 {
        seq![digits()[n as int]]
    } else {
        decimal(n / 10).push(digits()[(n % 10) as int])
    }
}

/// How one character of a label is written inside a quoted string.
pub open spec fn escape_char(c: char) -> Seq<char> {
    if c == '"' {
        seq!['\\', '"']
    } else if c == '\\' {
        seq!['\\', '\\']
    } else if c == '\n' {
        seq!['\\', 'n']
    } else {
        seq![c]
    }
}

/// A label made safe to stand between double quotes.
pub open spec fn escape(s: Seq<char>) -> Seq<char>
    decreases s.len(),
{
    if s.len() == 0 {
        Seq::empty()
    } else {
        escape_char(s[0]) + escape(s.drop_first())
    }
}

/// The character that a backslash followed by `c` stands for.
pub open spec fn unescape_char(c: char) -> char {
    if c == 'n' {
        '\n'
    } else {
        c
    }
}

/// Reads the body of a quoted string whose opening quote has been consumed:
/// the text up to the first unescaped `"`, and what follows that quote.
pub open spec fn read_quoted(s: Seq<char>) -> Option<(Seq<char>, Seq<char>)>
    decreases s.len(),
{
    if s.len() == 0 {
        None
    } else if s[0] == '"' {
        Some((Seq::empty(), s.drop_first()))
    } else if s[0] == '\\' {
        if s.len() < 2 {
            None
        } else {
            match read_quoted(s.subrange(2, s.len() as int)) {
                Some((body, rest)) => Some((seq![unescape_char(s[1])] + body, rest)),
                None => None,
            }
        }
    } else {
        match read_quoted(s.drop_first()) {
            Some((body, rest)) => Some((seq![s[0]] + body, rest)),
            None => None,
        }
    }
}

pub proof fn lemma_escape_push(s: Seq<char>, c: char)
    ensures
        escape(s.push(c)) == escape(s) + escape_char(c),
    decreases s.len(),
{
    if s.len() == 0 {
        assert(s.push(c).drop_first() =~= Seq::<char>::empty());
        assert(s.push(c)[0] == c);
        assert(escape(s.push(c).drop_first()) == Seq::<char>::empty());
        assert(escape(s.push(c)) =~= escape(s) + escape_char(c));
    } else {
        assert(s.push(c).drop_first() =~= s.drop_first().push(c));
        lemma_escape_push(s.drop_first(), c);
        assert(s.push(c)[0] == s[0]);
        assert(escape(s.push(c)) =~= escape(s) + escape_char(c));
    }
}

/// Escaping can be undone: reading back an escaped label, closed by a quote,
/// gives the label itself and leaves what followed the quote.
pub proof fn lemma_escape_round_trip(label: Seq<char>, rest: Seq<char>)
    ensures
        read_quoted(escape(label) + seq!['"'] + rest) == Some((label, rest)),
    decreases label.len(),
{
    let s = escape(label) + seq!['"'] + rest;
    if label.len() == 0 {
        assert(s =~= seq!['"'] + rest);
        assert(s.drop_first() =~= rest);
    } else {
        let c = label[0];
        let tail = label.drop_first();
        lemma_escape_round_trip(tail, rest);
        let t = escape(tail) + seq!['"'] + rest;
        assert(s =~= escape_char(c) + t);
        if c == '"' || c == '\\' || c == '\n' {
            assert(s.subrange(2, s.len() as int) =~= t);
        } else {
            assert(s.drop_first() =~= t);
        }
        assert(seq![c] + tail =~= label);
    }
}

/// Relies on String::push: appends one character at the end.
#[verifier::external_body]
fn push_char(out: &mut String, c: char)
    ensures
        final(out)@ == old(out)@.push(c),
{
    out.push(c)
}

fn digit(d: usize) -> (c: char)
    requires
        d < 10,
    ensures
        c == digits()[d as int],
{
    let all = "0123456789";
    proof {
        reveal_strlit("0123456789");
    }
    all.get_char(d)
}

/// Appends `n` in base 10.
pub fn push_decimal(out: &mut String, n: usize)
    ensures
        final(out)@ == old(out)@ + decimal(n as nat),
    decreases n,
{
    if n >= 10 {
        push_decimal(out, n / 10);
    }
    push_char(out, digit(n % 10));
    proof {
        if n < 10 {
            assert(old(out)@.push(digits()[n as int]) =~= old(out)@ + decimal(n as nat));
        } else {
            assert(old(out)@ + decimal((n / 10) as nat) + seq![digits()[(n % 10) as int]]
                =~= old(out)@ + decimal(n as nat));
        }
    }
}

/// Appends `s` with each `"`, `\` and newline written as an escape sequence.
pub fn push_escaped(out: &mut String, s: &str)
    ensures
        final(out)@ == old(out)@ + escape(s@),
{
    let ghost start = out@;
    for c in it: s.chars()
        invariant
            it.seq() == s@,
            out@ == start + escape(s@.take(it.index())),
    {
        let ghost done = s@.take(it.index());
        let ghost next = s@.take(it.index() + 1);
        assert(next =~= done.push(c));
        if c == '"' {
            push_char(out, '\\');
            push_char(out, '"');
        } else if c == '\\' {
            push_char(out, '\\');
            push_char(out, '\\');
        } else if c == '\n' {
            push_char(out, '\\');
            push_char(out, 'n');
        } else {
            push_char(out, c);
        }
        proof {
            lemma_escape_push(done, c);
            assert(out@ =~= start + escape(done) + escape_char(c));
        }
    }
    proof {
        assert(s@.take(s@.len() as int) =~= s@);
    }
}

} // verus!
