//! Decimal rendering of counts and the display strings built from them.

use vstd::prelude::*;

verus! {

/// The character of a decimal digit.
pub open spec fn digit_char(d: int) -> char {
    if d == 0 { '0' }
    else if d == 1 { '1' }
    else if d == 2 { '2' }
    else if d == 3 { '3' }
    else if d == 4 { '4' }
    else if d == 5 { '5' }
    else if d == 6 { '6' }
    else if d == 7 { '7' }
    else if d == 8 { '8' }
    else { '9' }
}

/// The decimal representation of `n`, most significant digit first, without
/// leading zeros (zero is written `0`).
pub open spec fn decimal(n: nat) -> Seq<char>
    decreases n,
{
    if n < 10 {
        seq![digit_char(n as int)]
    } else {
        decimal(n / 10).push(digit_char((n % 10) as int))
    }
}

/// The character of the digit `d`.
fn digit(d: usize) -> (c: char)
    requires
        d < 10,
    ensures
        c == digit_char(d as int),
{
    match d {
        0 => '0',
        1 => '1',
        2 => '2',
        3 => '3',
        4 => '4',
        5 => '5',
        6 => '6',
        7 => '7',
        8 => '8',
        _ => '9',
    }
}

/// The decimal digits of `n`.
pub fn decimal_digits(n: usize) -> (ds: Vec<char>)
    ensures
        ds@ == decimal(n as nat),
    decreases n,
{
    if n < 10 {
        let mut ds: Vec<char> = Vec::new();
        ds.push(digit(n));
        ds
    } else {
        let mut ds = decimal_digits(n / 10);
        ds.push(digit(n % 10));
        ds
    }
}


/// `s` with a comma between each group of three characters, the groups
/// counted from the right: `1234567` becomes `1,234,567`.
pub open spec fn grouped(s: Seq<char>) -> Seq<char>
    decreases s.len(),
{
    if s.len() <= 3 {
        s
    } else {
        grouped(s.take(s.len() - 3)) + seq![','] + s.skip(s.len() - 3)
    }
}

/// `s` without its commas.
pub open spec fn without_commas(s: Seq<char>) -> Seq<char> {
    s.filter(|c: char| c != ',')
}

/// `String::push` from std: appends one character.
#[verifier::external_body]
fn push_char(s: &mut String, c: char)
    ensures
        final(s)@ == old(s)@.push(c),
{
    s.push(c);
}

/// The decimal form of `n` with its digits grouped by three with commas,
/// as the mesh inspector shows vertex and triangle counts (`12,345`).
pub fn format_count(n: usize) -> (s: String)
    ensures
        s@ == grouped(decimal(n as nat)),
{
    let ds = decimal_digits(n);
    let len = ds.len();
    let first = len - 3 * ((len - 1) / 3);
    let mut out = String::new();
    let mut i: usize = 0;
    while i < first
        invariant
            ds@ == decimal(n as nat),
            len == ds@.len(),
            1 <= first <= 3,
            first <= len,
            (len - first) % 3 == 0,
            i <= first,
            out@ == ds@.take(i as int),
        decreases first - i,
    {
        push_char(&mut out, ds[i]);
        i += 1;
        assert(ds@.take(i as int) == ds@.take(i - 1).push(ds@[i - 1]));
    }
    assert(grouped(ds@.take(first as int)) == ds@.take(first as int));
    while i < len
        invariant
            ds@ == decimal(n as nat),
            len == ds@.len(),
            first <= i <= len,
            (len - i) % 3 == 0,
            1 <= i,
            out@ == grouped(ds@.take(i as int)),
        decreases len - i,
    {
        let ghost before = out@;
        push_char(&mut out, ',');
        push_char(&mut out, ds[i]);
        push_char(&mut out, ds[i + 1]);
        push_char(&mut out, ds[i + 2]);
        let ghost t = ds@.take(i + 3);
        assert(t.take(t.len() - 3) == ds@.take(i as int));
        assert(t.skip(t.len() - 3) == seq![ds@[i as int], ds@[i + 1], ds@[i + 2]]);
        assert(out@ == before + seq![','] + t.skip(t.len() - 3));
        i += 3;
    }
    assert(ds@.take(len as int) == ds@);
    out
}

/// No decimal representation holds a comma.
pub proof fn lemma_decimal_has_no_comma(n: nat)
    ensures
        !decimal(n).contains(','),
        decimal(n).len() >= 1,
    decreases n,
{
    if n >= 10 {
        lemma_decimal_has_no_comma(n / 10);
        assert forall|i: int| 0 <= i < decimal(n).len() implies decimal(n)[i] != ',' by {
            if i < decimal(n / 10).len() {
                assert(decimal(n)[i] == decimal(n / 10)[i]);
            }
        }
    }
}

/// Grouping only inserts commas: taking them out again gives back `s`.
pub proof fn lemma_grouped_without_commas(s: Seq<char>)
    requires
        !s.contains(','),
    ensures
        without_commas(grouped(s)) == s,
        s.len() >= 1 ==> grouped(s).len() == s.len() + (s.len() - 1) / 3,
    decreases s.len(),
{
    broadcast use vstd::seq_lib::group_seq_properties;
    let keep = |c: char| c != ',';
    if s.len() <= 3 {
        assert(s.filter(keep) == s) by {
            lemma_filter_keeps_all(s, keep);
        }
    } else {
        let head = s.take(s.len() - 3);
        let tail = s.skip(s.len() - 3);
        assert(!head.contains(',')) by {
            assert forall|i: int| 0 <= i < head.len() implies head[i] != ',' by {
                assert(head[i] == s[i]);
            }
        }
        assert(!tail.contains(',')) by {
            assert forall|i: int| 0 <= i < tail.len() implies tail[i] != ',' by {
                assert(tail[i] == s[s.len() - 3 + i]);
            }
        }
        lemma_grouped_without_commas(head);
        Seq::filter_distributes_over_add(grouped(head) + seq![','], tail, keep);
        Seq::filter_distributes_over_add(grouped(head), seq![','], keep);
        lemma_filter_keeps_all(tail, keep);
        assert(seq![','].filter(keep) =~= Seq::<char>::empty()) by {
            reveal_with_fuel(Seq::filter, 2);
        }
        assert(head + tail =~= s);
    }
}

/// Filtering by a predicate that every element meets keeps the sequence.
proof fn lemma_filter_keeps_all(s: Seq<char>, keep: spec_fn(char) -> bool)
    requires
        forall|i: int| 0 <= i < s.len() ==> keep(s[i]),
    ensures
        s.filter(keep) == s,
    decreases s.len(),
{
    reveal_with_fuel(Seq::filter, 1);
    if s.len() > 0 {
        lemma_filter_keeps_all(s.drop_last(), keep);
        assert(s.drop_last().push(s.last()) =~= s);
    }
}

/// `format_count` shows exactly the decimal digits of its argument, with
/// commas between them and nothing else, one comma per full group of three
/// digits below the leading group.
pub proof fn lemma_format_count_keeps_digits(n: nat)
    ensures
        without_commas(grouped(decimal(n))) == decimal(n),
        grouped(decimal(n)).len() == decimal(n).len() + (decimal(n).len() - 1) / 3,
{
    lemma_decimal_has_no_comma(n);
    lemma_grouped_without_commas(decimal(n));
}


/// `prefix` followed by the decimal form of `i`, as in `Primitive 3`.
pub fn numbered(prefix: &str, i: usize) -> (s: String)
    ensures
        s@ == prefix@ + decimal(i as nat),
{
    let ds = decimal_digits(i);
    let mut out = String::from_str(prefix);
    let mut k: usize = 0;
    while k < ds.len()
        invariant
            ds@ == decimal(i as nat),
            k <= ds@.len(),
            out@ == prefix@ + ds@.take(k as int),
        decreases ds.len() - k,
    {
        push_char(&mut out, ds[k]);
        k += 1;
        assert(ds@.take(k as int) == ds@.take(k - 1).push(ds@[k - 1]));
    }
    assert(ds@.take(ds@.len() as int) == ds@);
    out
}

/// The key under which the visibility of a primitive is saved:
/// `mesh/primitive`.
pub fn primitive_key(mesh_name: &str, prim_name: &str) -> (key: String)
    ensures
        key@ == mesh_name@ + seq!['/'] + prim_name@,
{
    let mut key = String::from_str(mesh_name);
    push_char(&mut key, '/');
    key.append(prim_name);
    key
}

/// The heading of a mesh in the meshes panel: its name and, in brackets,
/// how many primitives it has, as in `Body (3)`.
pub fn mesh_heading(name: &str, primitive_count: usize) -> (h: String)
    ensures
        h@ == name@ + seq![' ', '('] + decimal(primitive_count as nat) + seq![')'],
{
    let mut h = String::from_str(name);
    push_char(&mut h, ' ');
    let count = numbered("(", primitive_count);
    h.append(count.as_str());
    push_char(&mut h, ')');
    proof {
        reveal_strlit("(");
        assert(h@ =~= name@ + seq![' ', '('] + decimal(primitive_count as nat) + seq![')']);
    }
    h
}

} // verus!
