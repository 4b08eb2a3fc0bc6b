//! The wire format's lexical layer: a message is a sequence of atoms, each an
//! unsigned integer (`i<decimal>;`) or a text (`s<length>:<characters>`).
//! Texts carry their length, so any character may stand in them unescaped.
use vstd::prelude::*;
use vstd::string::*;
use crate::text::{decimal, digit_char, u64_to_decimal};

verus! {

/// One lexical item of an encoded message.
#[derive(Debug, PartialEq)]
pub enum Atom {
    Uint(u64),
    Text(String),
}

pub enum AtomView {
    Uint(u64),
    Text(Seq<char>),
}

impl View for Atom {
    type V = AtomView;

    open spec fn view(&self) -> AtomView {
        match self {
            Atom::Uint(n) => AtomView::Uint(*n),
            Atom::Text(s) => AtomView::Text(s@),
        }
    }
}

pub open spec fn atoms_view(l: Seq<Atom>) -> Seq<AtomView> {
    l.map_values(|a: Atom| a@)
}

pub open spec fn enc_atom(a: AtomView) -> Seq<char> {
    match a {
        AtomView::Uint(n) => seq!['i'] + decimal(n as nat) + seq![';'],
        AtomView::Text(s) => seq!['s'] + decimal(s.len()) + seq![':'] + s,
    }
}

pub open spec fn enc_atoms(l: Seq<AtomView>) -> Seq<char>
    decreases l.len(),
{
    if l.len() == 0 {
        Seq::empty()
    } else {
        enc_atom(l[0]) + enc_atoms(l.drop_first())
    }
}

pub open spec fn is_digit(c: char) -> bool {
    '0' <= c <= '9'
}

pub open spec fn digit_value(c: char) -> int {
    c as int - '0' as int
}

/// The number of leading digits of `s`.
pub open spec fn digit_run(s: Seq<char>) -> nat
    decreases s.len(),
{
    if s.len() > 0 && is_digit(s[0]) {
        1 + digit_run(s.drop_first())
    } else {
        0
    }
}

/// The value of a string of digits.
pub open spec fn digits_value(ds: Seq<char>) -> nat
    decreases ds.len(),
{
    if ds.len() == 0 {
        0
    } else {
        (digits_value(ds.drop_last()) * 10 + digit_value(ds.last())) as nat
    }
}

/// Reads a decimal number that fits in 64 bits, ended by `term`.
pub open spec fn parse_nat(s: Seq<char>, term: char) -> Option<(u64, Seq<char>)> {
    let k = digit_run(s);
    if k == 0 || k >= s.len() || s[k as int] != term || digits_value(s.take(k as int)) > u64::MAX {
        None
    } else {
        Some((digits_value(s.take(k as int)) as u64, s.skip(k as int + 1)))
    }
}

pub open spec fn parse_atom(s: Seq<char>) -> Option<(AtomView, Seq<char>)> {
    if s.len() == 0 {
        None
    } else if s[0] == 'i' {
        match parse_nat(s.drop_first(), ';') {
            Some((n, r)) => Some((AtomView::Uint(n), r)),
            None => None,
        }
    } else if s[0] == 's' {
        match parse_nat(s.drop_first(), ':') {
            Some((n, r)) => if n <= r.len() {
                Some((AtomView::Text(r.take(n as int)), r.skip(n as int)))
            } else {
                None
            },
            None => None,
        }
    } else {
        None
    }
}

/// Reads atoms until the text is used up; `None` when any of it is malformed.
pub open spec fn parse_atoms(s: Seq<char>) -> Option<Seq<AtomView>>
    decreases s.len(),
{
    if s.len() == 0 {
        Some(Seq::empty())
    } else {
        match parse_atom(s) {
            Some((a, r)) => if r.len() < s.len() {
                match parse_atoms(r) {
                    Some(l) => Some(seq![a] + l),
                    None => None,
                }
            } else {
                None
            },
            None => None,
        }
    }
}

proof fn lemma_digit_char(d: nat)
    requires
        d < 10,
    ensures
        is_digit(digit_char(d)),
        digit_value(digit_char(d)) == d,
{
}

proof fn lemma_decimal_digits(n: nat)
    ensures
        decimal(n).len() >= 1,
        forall|i: int| 0 <= i < decimal(n).len() ==> is_digit(#[trigger] decimal(n)[i]),
        digits_value(decimal(n)) == n,
    decreases n,
{
    lemma_digit_char(n % 10);
    if n < 10 {
        assert(decimal(n).drop_last() == Seq::<char>::empty());
        assert(decimal(n).last() == digit_char(n));
        assert(digits_value(decimal(n)) == digits_value(decimal(n).drop_last()) * 10 + digit_value(decimal(n).last()));
    } else {
        lemma_decimal_digits(n / 10);
        let d = decimal(n);
        assert(d.drop_last() == decimal(n / 10));
        assert(d.last() == digit_char(n % 10));
        assert(digits_value(d) == digits_value(d.drop_last()) * 10 + digit_value(d.last()));
        assert(n == (n / 10) * 10 + n % 10);
        assert forall|i: int| 0 <= i < d.len() implies is_digit(#[trigger] d[i]) by {
            if i < d.len() - 1 {
                assert(d[i] == decimal(n / 10)[i]);
            }
        }
    }
}

proof fn lemma_digit_run_prefix(ds: Seq<char>, rest: Seq<char>)
    requires
        forall|i: int| 0 <= i < ds.len() ==> is_digit(#[trigger] ds[i]),
        rest.len() > 0,
        !is_digit(rest[0]),
    ensures
        digit_run(ds + rest) == ds.len(),
    decreases ds.len(),
{
    if ds.len() > 0 {
        assert((ds + rest).drop_first() == ds.drop_first() + rest);
        lemma_digit_run_prefix(ds.drop_first(), rest);
    } else {
        assert(ds + rest == rest);
    }
}

proof fn lemma_parse_nat_decimal(n: u64, term: char, rest: Seq<char>)
    requires
        !is_digit(term),
    ensures
        parse_nat(decimal(n as nat) + seq![term] + rest, term) == Some((n, rest)),
{
    let d = decimal(n as nat);
    let s = d + seq![term] + rest;
    lemma_decimal_digits(n as nat);
    assert(s == d + (seq![term] + rest));
    lemma_digit_run_prefix(d, seq![term] + rest);
    assert(s.take(d.len() as int) == d);
    assert(s[d.len() as int] == term);
    assert(s.skip(d.len() as int + 1) == rest);
}

/// A text atom's length can be written as a 64-bit number.
pub open spec fn atom_fits(a: AtomView) -> bool {
    a matches AtomView::Text(t) ==> t.len() <= u64::MAX
}

proof fn lemma_parse_atom_enc(a: AtomView, rest: Seq<char>)
    requires
        atom_fits(a),
    ensures
        parse_atom(enc_atom(a) + rest) == Some((a, rest)),
{
    match a {
        AtomView::Uint(n) => {
            let s = enc_atom(a) + rest;
            assert(s.drop_first() == decimal(n as nat) + seq![';'] + rest);
            lemma_parse_nat_decimal(n, ';', rest);
        },
        AtomView::Text(t) => {
            let s = enc_atom(a) + rest;
            assert(s.drop_first() == decimal(t.len()) + seq![':'] + (t + rest));
            lemma_parse_nat_decimal(t.len() as u64, ':', t + rest);
            assert((t + rest).take(t.len() as int) == t);
            assert((t + rest).skip(t.len() as int) == rest);
        },
    }
}

/// Decoding the encoding of atoms gives them back.
pub proof fn lemma_atoms_round_trip(l: Seq<AtomView>)
    requires
        forall|i: int| 0 <= i < l.len() ==> atom_fits(#[trigger] l[i]),
    ensures
        parse_atoms(enc_atoms(l)) == Some(l),
    decreases l.len(),
{
    if l.len() > 0 {
        let s = enc_atoms(l);
        let r = enc_atoms(l.drop_first());
        assert(atom_fits(l[0]));
        lemma_parse_atom_enc(l[0], r);
        lemma_atoms_round_trip(l.drop_first());
        assert(enc_atom(l[0]).len() > 0);
        assert(seq![l[0]] + l.drop_first() == l);
    }
}

} // verus!

verus! {

fn chars_of(s: &str) -> (r: Vec<char>)
    ensures
        r@ == s@,
{
    let mut v: Vec<char> = Vec::new();
    for c in it: s.chars()
        invariant
            v@ == it.seq().take(it.index() as int),
    {
        v.push(c);
    }
    v
}

} // verus!

verus! {

proof fn lemma_enc_atoms_push(l: Seq<AtomView>, a: AtomView)
    ensures
        enc_atoms(l.push(a)) == enc_atoms(l) + enc_atom(a),
    decreases l.len(),
{
    if l.len() == 0 {
        assert(l.push(a).drop_first() == l);
        assert(enc_atoms(l) == Seq::<char>::empty());
        assert(enc_atoms(l.push(a)) == enc_atom(a) + enc_atoms(l));
    } else {
        assert(l.push(a).drop_first() == l.drop_first().push(a));
        lemma_enc_atoms_push(l.drop_first(), a);
    }
}

fn write_atom(out: &mut String, a: &Atom)
    ensures
        final(out)@ == old(out)@ + enc_atom(a@),
{
    proof {
        reveal_strlit("i");
        reveal_strlit(";");
        reveal_strlit("s");
        reveal_strlit(":");
    }
    match a {
        Atom::Uint(n) => {
            out.append("i");
            let d = u64_to_decimal(*n);
            out.append(d.as_str());
            out.append(";");
            assert(out@ == old(out)@ + (seq!['i'] + decimal(*n as nat) + seq![';']));
        },
        Atom::Text(t) => {
            out.append("s");
            let len = t.as_str().unicode_len();
            let d = u64_to_decimal(len as u64);
            out.append(d.as_str());
            out.append(":");
            out.append(t.as_str());
            assert(out@ == old(out)@ + (seq!['s'] + decimal(t@.len()) + seq![':'] + t@));
        },
    }
}

/// Writes atoms one after another.
pub fn encode_atoms(l: &Vec<Atom>) -> (r: String)
    ensures
        r@ == enc_atoms(atoms_view(l@)),
{
    let mut out = String::new();
    let mut i: usize = 0;
    while i < l.len()
        invariant
            i <= l@.len(),
            out@ == enc_atoms(atoms_view(l@.subrange(0, i as int))),
        decreases l@.len() - i,
    {
        proof {
            assert(atoms_view(l@.subrange(0, i + 1)) == atoms_view(l@.subrange(0, i as int)).push(l@[i as int]@));
            lemma_enc_atoms_push(atoms_view(l@.subrange(0, i as int)), l@[i as int]@);
        }
        write_atom(&mut out, &l[i]);
        i = i + 1;
    }
    assert(l@.subrange(0, l@.len() as int) == l@);
    out
}

proof fn lemma_digit_run_exact(s: Seq<char>, k: int)
    requires
        0 <= k <= s.len(),
        forall|t: int| 0 <= t < k ==> is_digit(#[trigger] s[t]),
        k == s.len() || !is_digit(s[k]),
    ensures
        digit_run(s) == k,
    decreases k,
{
    if k > 0 {
        assert forall|t: int| 0 <= t < k - 1 implies is_digit(#[trigger] s.drop_first()[t]) by {
            assert(s.drop_first()[t] == s[t + 1]);
        }
        lemma_digit_run_exact(s.drop_first(), k - 1);
    }
}

proof fn lemma_digits_value_grows(s: Seq<char>, j: int, k: int)
    requires
        0 <= j <= k <= s.len(),
        forall|t: int| 0 <= t < k ==> is_digit(#[trigger] s[t]),
    ensures
        digits_value(s.take(j)) <= digits_value(s.take(k)),
    decreases k - j,
{
    if j < k {
        lemma_digits_value_grows(s, j, k - 1);
        assert(s.take(k).drop_last() == s.take(k - 1));
        assert(is_digit(s[k - 1]));
    }
}

fn parse_nat_at(cs: &Vec<char>, pos: usize, term: char) -> (r: Option<(u64, usize)>)
    requires
        pos <= cs@.len(),
    ensures
        match parse_nat(cs@.skip(pos as int), term) {
            Some((n, rest)) => r matches Some((m, p)) && m == n && pos < p <= cs@.len() && cs@.skip(
                p as int,
            ) == rest,
            None => r is None,
        },
{
    let ghost s = cs@.skip(pos as int);
    let mut i: usize = pos;
    let mut v: u64 = 0;
    let mut overflow = false;
    while i < cs.len() && '0' <= cs[i] && cs[i] <= '9'
        invariant
            pos <= i <= cs@.len(),
            s == cs@.skip(pos as int),
            forall|t: int| 0 <= t < i - pos ==> is_digit(#[trigger] s[t]),
            !overflow ==> v == digits_value(s.take(i - pos)),
            overflow ==> digits_value(s.take(i - pos)) > u64::MAX,
        decreases cs@.len() - i,
    {
        let d = (cs[i] as u32 - '0' as u32) as u64;
        proof {
            assert(s.take(i - pos + 1).drop_last() == s.take(i - pos));
            assert(s.take(i - pos + 1).last() == cs@[i as int]);
            assert(s[i - pos] == cs@[i as int]);
        }
        if !overflow {
            if v > (u64::MAX - d) / 10 {
                overflow = true;
            } else {
                v = v * 10 + d;
            }
        }
        i = i + 1;
    }
    proof {
        lemma_digit_run_exact(s, i - pos);
    }
    if i == pos || i >= cs.len() || cs[i] != term || overflow {
        return None;
    }
    proof {
        assert(s[i - pos] == cs@[i as int]);
        assert(s.skip(i - pos + 1) == cs@.skip(i + 1));
    }
    Some((v, i + 1))
}

fn parse_atom_at(text: &str, cs: &Vec<char>, pos: usize) -> (r: Option<(Atom, usize)>)
    requires
        cs@ == text@,
        pos <= cs@.len(),
    ensures
        match parse_atom(cs@.skip(pos as int)) {
            Some((a, rest)) => r matches Some((b, p)) && b@ == a && pos < p <= cs@.len() && cs@.skip(
                p as int,
            ) == rest,
            None => r is None,
        },
{
    if pos >= cs.len() {
        return None;
    }
    let c = cs[pos];
    proof {
        assert(cs@.skip(pos as int)[0] == c);
        assert(cs@.skip(pos as int).drop_first() == cs@.skip(pos + 1));
    }
    if c == 'i' {
        match parse_nat_at(cs, pos + 1, ';') {
            Some((n, p)) => Some((Atom::Uint(n), p)),
            None => None,
        }
    } else if c == 's' {
        match parse_nat_at(cs, pos + 1, ':') {
            Some((n, p)) => {
                if n > (cs.len() - p) as u64 {
                    return None;
                }
                let end = p + n as usize;
                let t = String::from_str(text.substring_char(p, end));
                proof {
                    let rest = cs@.skip(p as int);
                    assert(t@ == rest.take(n as int));
                    assert(cs@.skip(end as int) == rest.skip(n as int));
                }
                Some((Atom::Text(t), end))
            },
            None => None,
        }
    } else {
        None
    }
}

/// Reads a whole text as atoms; `None` when any part of it is malformed.
pub fn decode_atoms(text: &str) -> (r: Option<Vec<Atom>>)
    ensures
        match r {
            Some(l) => parse_atoms(text@) == Some(atoms_view(l@)),
            None => parse_atoms(text@) is None,
        },
{
    let cs = chars_of(text);
    let mut out: Vec<Atom> = Vec::new();
    let mut pos: usize = 0;
    assert(cs@.skip(0) == cs@);
    while pos < cs.len()
        invariant
            cs@ == text@,
            pos <= cs@.len(),
            match parse_atoms(cs@.skip(pos as int)) {
                Some(l) => parse_atoms(text@) == Some(atoms_view(out@) + l),
                None => parse_atoms(text@) is None,
            },
        decreases cs@.len() - pos,
    {
        let ghost s = cs@.skip(pos as int);
        match parse_atom_at(text, &cs, pos) {
            Some((a, p)) => {
                proof {
                    let av = a@;
                    assert(s.len() > 0);
                    match parse_atoms(cs@.skip(p as int)) {
                        Some(l) => {
                            assert(parse_atoms(s) == Some(seq![av] + l));
                            assert(atoms_view(out@.push(a)) == atoms_view(out@).push(av));
                            assert(atoms_view(out@) + (seq![av] + l) == atoms_view(out@).push(av) + l);
                        },
                        None => {},
                    }
                }
                out.push(a);
                pos = p;
            },
            None => {
                return None;
            },
        }
    }
    assert(cs@.skip(pos as int) == Seq::<char>::empty());
    assert(atoms_view(out@) + Seq::<AtomView>::empty() == atoms_view(out@));
    Some(out)
}

} // verus!

verus! {

/// The text at position `i`, or the empty text.
pub open spec fn text_at(l: Seq<AtomView>, i: int) -> Seq<char> {
    if 0 <= i < l.len() && l[i] is Text {
        l[i]->Text_0
    } else {
        Seq::empty()
    }
}

/// The integer at position `i`, or zero.
pub open spec fn uint_at(l: Seq<AtomView>, i: int) -> u64 {
    if 0 <= i < l.len() && l[i] is Uint {
        l[i]->Uint_0
    } else {
        0
    }
}

pub open spec fn u32_of(x: u64) -> u32 {
    if x <= u32::MAX {
        x as u32
    } else {
        0
    }
}

pub fn text_at_exec(l: &Vec<Atom>, i: usize) -> (r: String)
    ensures
        r@ == text_at(atoms_view(l@), i as int),
{
    if i < l.len() {
        match &l[i] {
            Atom::Text(t) => t.clone(),
            Atom::Uint(_) => String::new(),
        }
    } else {
        String::new()
    }
}

pub fn uint_at_exec(l: &Vec<Atom>, i: usize) -> (r: u64)
    ensures
        r == uint_at(atoms_view(l@), i as int),
{
    if i < l.len() {
        match &l[i] {
            Atom::Uint(n) => *n,
            Atom::Text(_) => 0,
        }
    } else {
        0
    }
}

pub fn u32_of_exec(x: u64) -> (r: u32)
    ensures
        r == u32_of(x),
{
    if x <= u32::MAX as u64 {
        x as u32
    } else {
        0
    }
}

/// Compares two atom sequences.
pub fn same_atoms(a: &Vec<Atom>, b: &Vec<Atom>) -> (r: bool)
    ensures
        r == (atoms_view(a@) == atoms_view(b@)),
{
    if a.len() != b.len() {
        assert(atoms_view(a@).len() != atoms_view(b@).len());
        return false;
    }
    let mut i: usize = 0;
    while i < a.len()
        invariant
            a@.len() == b@.len(),
            i <= a@.len(),
            forall|j: int| 0 <= j < i ==> a@[j]@ == b@[j]@,
        decreases a@.len() - i,
    {
        let same = match (&a[i], &b[i]) {
            (Atom::Uint(x), Atom::Uint(y)) => *x == *y,
            (Atom::Text(x), Atom::Text(y)) => same_text(x.as_str(), y.as_str()),
            _ => false,
        };
        if !same {
            assert(atoms_view(a@)[i as int] != atoms_view(b@)[i as int]);
            return false;
        }
        i = i + 1;
    }
    assert(atoms_view(a@) =~= atoms_view(b@));
    true
}

/// The integer at position `i` of the atoms of `l` from `start` to `end`, or zero.
pub fn uint_in(l: &Vec<Atom>, start: usize, end: usize, i: usize) -> (r: u64)
    requires
        start <= end <= l@.len(),
    ensures
        r == uint_at(atoms_view(l@).subrange(start as int, end as int), i as int),
{
    if i < end - start {
        uint_at_exec(l, start + i)
    } else {
        0
    }
}

/// The text at position `i` of the atoms of `l` from `start` to `end`, or empty.
pub fn text_in(l: &Vec<Atom>, start: usize, end: usize, i: usize) -> (r: String)
    requires
        start <= end <= l@.len(),
    ensures
        r@ == text_at(atoms_view(l@).subrange(start as int, end as int), i as int),
{
    if i < end - start {
        text_at_exec(l, start + i)
    } else {
        String::new()
    }
}

/// Whether `b` stands in `a` at position `start`.
pub fn atoms_match_at(a: &Vec<Atom>, start: usize, b: &Vec<Atom>) -> (r: bool)
    ensures
        r == (start + b@.len() <= a@.len() && atoms_view(a@).subrange(
            start as int,
            start + b@.len(),
        ) == atoms_view(b@)),
{
    if start > a.len() || b.len() > a.len() - start {
        return false;
    }
    let mut i: usize = 0;
    while i < b.len()
        invariant
            start + b@.len() <= a@.len(),
            a@.len() <= usize::MAX,
            i <= b@.len(),
            forall|j: int| 0 <= j < i ==> a@[start + j]@ == b@[j]@,
        decreases b@.len() - i,
    {
        let same = match (&a[start + i], &b[i]) {
            (Atom::Uint(x), Atom::Uint(y)) => *x == *y,
            (Atom::Text(x), Atom::Text(y)) => same_text(x.as_str(), y.as_str()),
            _ => false,
        };
        if !same {
            assert(atoms_view(a@).subrange(start as int, start + b@.len())[i as int] != atoms_view(b@)[i as int]);
            return false;
        }
        i = i + 1;
    }
    assert(atoms_view(a@).subrange(start as int, start + b@.len()) =~= atoms_view(b@));
    true
}

/// Compares two texts.
pub fn same_text(a: &str, b: &str) -> (r: bool)
    ensures
        r == (a@ == b@),
{
    let n = a.unicode_len();
    if n != b.unicode_len() {
        return false;
    }
    let mut i: usize = 0;
    while i < n
        invariant
            n == a@.len() == b@.len(),
            i <= n,
            forall|j: int| 0 <= j < i ==> a@[j] == b@[j],
        decreases n - i,
    {
        if a.get_char(i) != b.get_char(i) {
            return false;
        }
        i = i + 1;
    }
    assert(a@ =~= b@);
    true
}

} // verus!
