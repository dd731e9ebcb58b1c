use vstd::prelude::*;
use vstd::string::StringExecFns;

verus! {

/// The character of a decimal digit.
pub open spec fn digit_char(d: nat) -> char {
    if d == 0 { '0' }
    else if d == 1 { '1' }
    else if d == 2 { '2' }
    else if d == 3 { '3' }
    else if d == 4 { '4' }
    else if d == 5 { '5' }
    else if d == 6 { '6' }
    else if d == 7 { '7' }
    else if d == 8 { '8' }
    else { '9' }
}

/// The decimal notation of `n`, without leading zeros.
pub open spec fn decimal(n: nat) -> Seq<char>
    decreases n,
{
    if n < 10 {
        seq![digit_char(n)]
    } else {
        decimal(n / 10).push(digit_char(n % 10))
    }
}

/// The field lines of a value struct of `k` 32-bit words: one line per field.
pub open spec fn field_lines(k: nat) -> Seq<char>
    decreases k,
{
    if k == 0 {
        Seq::empty()
    } else {
        field_lines((k - 1) as nat) + "    field_"@ + decimal((k - 1) as nat) + ": u32,\n"@
    }
}

/// The shader declaration of an opaque value type made of `k` 32-bit words.
pub open spec fn value_type_definition(k: nat) -> Seq<char> {
    "struct VALUE_TYPE {"@ + field_lines(k) + "}\n\n"@
}

fn digit_str(d: usize) -> (r: &'static str)
    requires
        d < 10,
    ensures
        r@ == seq![digit_char(d as nat)],
{
    proof {
        reveal_strlit("0");
        reveal_strlit("1");
        reveal_strlit("2");
        reveal_strlit("3");
        reveal_strlit("4");
        reveal_strlit("5");
        reveal_strlit("6");
        reveal_strlit("7");
        reveal_strlit("8");
        reveal_strlit("9");
    }
    let r = if d == 0 { "0" }
    else if d == 1 { "1" }
    else if d == 2 { "2" }
    else if d == 3 { "3" }
    else if d == 4 { "4" }
    else if d == 5 { "5" }
    else if d == 6 { "6" }
    else if d == 7 { "7" }
    else if d == 8 { "8" }
    else { "9" };
    assert(r@ =~= seq![digit_char(d as nat)]);
    r
}

/// Appends the decimal notation of `n` to `s`.
pub fn push_decimal(s: &mut String, n: usize)
    ensures
        final(s)@ == old(s)@ + decimal(n as nat),
    decreases n,
{
    if n >= 10 {
        push_decimal(s, n / 10);
    }
    s.append(digit_str(n % 10));
    proof {
        if n >= 10 {
            assert(decimal(n as nat) == decimal((n / 10) as nat).push(digit_char((n % 10) as nat)));
        }
    }
    assert(s@ =~= old(s)@ + decimal(n as nat));
}

/// Appends the declaration of an opaque struct of `size_of::<V>() / 4` 32-bit words to
/// `s`, one field per word, for kernels that move values of type `V` without reading
/// them.
pub fn write_value_type<V>(s: &mut String)
    requires
        vstd::layout::size_of::<V>() % 4 == 0,
    ensures
        final(s)@ == old(s)@ + value_type_definition(vstd::layout::size_of::<V>() / 4),
{
    let size = core::mem::size_of::<V>();
    s.append("struct VALUE_TYPE {");
    let field_count = size / 4;
    let mut i: usize = 0;
    while i < field_count
        invariant
            i <= field_count,
            field_count == vstd::layout::size_of::<V>() / 4,
            s@ == old(s)@ + "struct VALUE_TYPE {"@ + field_lines(i as nat),
        decreases field_count - i,
    {
        s.append("    field_");
        push_decimal(s, i);
        s.append(": u32,\n");
        i = i + 1;
        assert(field_lines(i as nat) == field_lines((i - 1) as nat) + "    field_"@ + decimal((i - 1) as nat) + ": u32,\n"@);
        assert(s@ =~= old(s)@ + "struct VALUE_TYPE {"@ + field_lines(i as nat));
    }
    s.append("}\n\n");
    assert(s@ =~= old(s)@ + value_type_definition(vstd::layout::size_of::<V>() / 4));
}

} // verus!
