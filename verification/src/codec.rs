//! The stored form of the selection record: a line-oriented text format with
//! length-prefixed ids, so any id round-trips verbatim. The first line is a
//! format version. `ser_record` is the single definition of the stored text;
//! `parse_record_spec` reads exactly that text back, and rejects anything
//! else, which the loader then treats as an empty record (fail-soft).
//!
//! Layout, where `<n>` is a decimal number and ids are raw characters:
//! a version line; a line with the output count; per output a line
//! `<id-length> <id>`; a line with the input count; per input a line
//! `<id-length> <id> <volume>`.

use vstd::prelude::*;
use vstd::string::{StrSliceExecFns, StringExecFns};
use crate::cache::{Cache, CacheModel, MAX_VOLUME, distinct_ids, distinct_keys, in_pairs, out_ids};
use crate::digits::{append_dec, dec_digits, dec_val, digit_val, is_digit, lemma_dec_digits_shape,
    lemma_dec_val_of_digits};

verus! {

/// The stored line for one selected output id.
pub open spec fn ser_out_entry(id: Seq<char>) -> Seq<char> {
    dec_digits(id.len()) + seq![' '] + id + seq!['\n']
}

/// The stored lines for the selected outputs, in order.
pub open spec fn ser_outputs(ids: Seq<Seq<char>>) -> Seq<char>
    decreases ids.len(),
{
    if ids.len() == 0 {
        Seq::empty()
    } else {
        ser_out_entry(ids[0]) + ser_outputs(ids.drop_first())
    }
}

/// The stored line for one selected input id with its cached target volume.
pub open spec fn ser_in_entry(e: (Seq<char>, u8)) -> Seq<char> {
    dec_digits(e.0.len()) + seq![' '] + e.0 + seq![' '] + dec_digits(e.1 as nat) + seq!['\n']
}

/// The stored lines for the selected inputs, in order.
pub open spec fn ser_inputs(es: Seq<(Seq<char>, u8)>) -> Seq<char>
    decreases es.len(),
{
    if es.len() == 0 {
        Seq::empty()
    } else {
        ser_in_entry(es[0]) + ser_inputs(es.drop_first())
    }
}

/// The full stored text of a record.
pub open spec fn ser_record(m: CacheModel) -> Seq<char> {
    seq!['1', '\n'] + dec_digits(m.outputs.len()) + seq!['\n'] + ser_outputs(m.outputs)
        + dec_digits(m.inputs.len()) + seq!['\n'] + ser_inputs(m.inputs)
}

proof fn lemma_ser_outputs_snoc(ids: Seq<Seq<char>>, x: Seq<char>)
    ensures
        ser_outputs(ids.push(x)) == ser_outputs(ids) + ser_out_entry(x),
    decreases ids.len(),
{
    let p = ids.push(x);
    if ids.len() == 0 {
        assert(p[0] == x);
        assert(ser_outputs(p) == ser_out_entry(x) + ser_outputs(p.drop_first()));
        assert(p.drop_first() =~= Seq::<Seq<char>>::empty());
        assert(ser_outputs(p.drop_first()) == Seq::<char>::empty());
        assert(ser_outputs(ids) == Seq::<char>::empty());
        assert(ser_outputs(p) =~= ser_outputs(ids) + ser_out_entry(x));
    } else {
        assert(p[0] == ids[0]);
        assert(ser_outputs(p) == ser_out_entry(ids[0]) + ser_outputs(p.drop_first()));
        assert(p.drop_first() =~= ids.drop_first().push(x));
        lemma_ser_outputs_snoc(ids.drop_first(), x);
        assert(ser_outputs(p.drop_first()) == ser_outputs(ids.drop_first()) + ser_out_entry(x));
        assert(ser_outputs(ids) == ser_out_entry(ids[0]) + ser_outputs(ids.drop_first()));
        assert(ser_outputs(p) =~= ser_outputs(ids) + ser_out_entry(x));
    }
}

proof fn lemma_ser_inputs_snoc(es: Seq<(Seq<char>, u8)>, x: (Seq<char>, u8))
    ensures
        ser_inputs(es.push(x)) == ser_inputs(es) + ser_in_entry(x),
    decreases es.len(),
{
    let p = es.push(x);
    if es.len() == 0 {
        assert(p[0] == x);
        assert(ser_inputs(p) == ser_in_entry(x) + ser_inputs(p.drop_first()));
        assert(p.drop_first() =~= Seq::<(Seq<char>, u8)>::empty());
        assert(ser_inputs(p.drop_first()) == Seq::<char>::empty());
        assert(ser_inputs(es) == Seq::<char>::empty());
        assert(ser_inputs(p) =~= ser_inputs(es) + ser_in_entry(x));
    } else {
        assert(p[0] == es[0]);
        assert(ser_inputs(p) == ser_in_entry(es[0]) + ser_inputs(p.drop_first()));
        assert(p.drop_first() =~= es.drop_first().push(x));
        lemma_ser_inputs_snoc(es.drop_first(), x);
        assert(ser_inputs(p.drop_first()) == ser_inputs(es.drop_first()) + ser_in_entry(x));
        assert(ser_inputs(es) == ser_in_entry(es[0]) + ser_inputs(es.drop_first()));
        assert(ser_inputs(p) =~= ser_inputs(es) + ser_in_entry(x));
    }
}

/// The longest digit prefix of the text.
pub open spec fn take_digits(s: Seq<char>) -> Seq<char>
    decreases s.len(),
{
    if s.len() > 0 && is_digit(s[0]) {
        seq![s[0]] + take_digits(s.drop_first())
    } else {
        Seq::empty()
    }
}

/// Read a decimal number from the front of the text: its value and the rest
/// of the text. Nothing is read when no digit is there or the value does not
/// fit the machine.
pub open spec fn parse_num(s: Seq<char>) -> Option<(nat, Seq<char>)> {
    let d = take_digits(s);
    if d.len() == 0 || dec_val(d) > usize::MAX as nat {
        None
    } else {
        Some((dec_val(d), s.skip(d.len() as int)))
    }
}

/// Read one expected character from the front of the text.
pub open spec fn expect(s: Seq<char>, c: char) -> Option<Seq<char>> {
    if s.len() > 0 && s[0] == c {
        Some(s.drop_first())
    } else {
        None
    }
}

/// Read one stored output line: a length, a space, that many id characters,
/// a line break.
pub open spec fn parse_out_entry(s: Seq<char>) -> Option<(Seq<char>, Seq<char>)> {
    match parse_num(s) {
        None => None,
        Some((n, r1)) => match expect(r1, ' ') {
            None => None,
            Some(r2) => if r2.len() >= n {
                match expect(r2.skip(n as int), '\n') {
                    None => None,
                    Some(r3) => Some((r2.take(n as int), r3)),
                }
            } else {
                None
            },
        },
    }
}

/// Read `n` stored output lines.
pub open spec fn parse_outputs(s: Seq<char>, n: nat) -> Option<(Seq<Seq<char>>, Seq<char>)>
    decreases n,
{
    if n == 0 {
        Some((Seq::empty(), s))
    } else {
        match parse_out_entry(s) {
            None => None,
            Some((id, r)) => match parse_outputs(r, (n - 1) as nat) {
                None => None,
                Some((ids, r2)) => Some((seq![id] + ids, r2)),
            },
        }
    }
}

/// Read one stored input line: a length, a space, that many id characters,
/// a space, a volume within range, a line break.
pub open spec fn parse_in_entry(s: Seq<char>) -> Option<((Seq<char>, u8), Seq<char>)> {
    match parse_num(s) {
        None => None,
        Some((n, r1)) => match expect(r1, ' ') {
            None => None,
            Some(r2) => if r2.len() >= n {
                match expect(r2.skip(n as int), ' ') {
                    None => None,
                    Some(r3) => match parse_num(r3) {
                        None => None,
                        Some((v, r4)) => if v > MAX_VOLUME as nat {
                            None
                        } else {
                            match expect(r4, '\n') {
                                None => None,
                                Some(r5) => Some(((r2.take(n as int), v as u8), r5)),
                            }
                        },
                    },
                }
            } else {
                None
            },
        },
    }
}

/// Read `n` stored input lines.
pub open spec fn parse_inputs(s: Seq<char>, n: nat) -> Option<(Seq<(Seq<char>, u8)>, Seq<char>)>
    decreases n,
{
    if n == 0 {
        Some((Seq::empty(), s))
    } else {
        match parse_in_entry(s) {
            None => None,
            Some((e, r)) => match parse_inputs(r, (n - 1) as nat) {
                None => None,
                Some((es, r2)) => Some((seq![e] + es, r2)),
            },
        }
    }
}

/// Read a whole stored record. The text must be consumed exactly and the
/// result must satisfy the record invariant; anything else is rejected.
pub open spec fn parse_record_spec(s: Seq<char>) -> Option<CacheModel> {
    match expect(s, '1') {
        None => None,
        Some(r0) => match expect(r0, '\n') {
            None => None,
            Some(r1) => match parse_num(r1) {
                None => None,
                Some((n, r2)) => match expect(r2, '\n') {
                    None => None,
                    Some(r3) => match parse_outputs(r3, n) {
                        None => None,
                        Some((outs, r4)) => match parse_num(r4) {
                            None => None,
                            Some((m2, r5)) => match expect(r5, '\n') {
                                None => None,
                                Some(r6) => match parse_inputs(r6, m2) {
                                    None => None,
                                    Some((ins, r7)) => if r7.len() == 0 && distinct_ids(outs)
                                        && distinct_keys(ins) {
                                        Some(CacheModel { outputs: outs, inputs: ins })
                                    } else {
                                        None
                                    },
                                },
                            },
                        },
                    },
                },
            },
        },
    }
}

/// A successfully read record satisfies the record invariant.
pub proof fn lemma_parse_wf(s: Seq<char>)
    ensures
        parse_record_spec(s) is Some ==> parse_record_spec(s)->Some_0.wf(),
{
    if parse_record_spec(s) is Some {
        let r1 = expect(expect(s, '1')->Some_0, '\n')->Some_0;
        let (n, r2) = parse_num(r1)->Some_0;
        let r3 = expect(r2, '\n')->Some_0;
        let (outs, r4) = parse_outputs(r3, n)->Some_0;
        let (m2, r6pre) = parse_num(r4)->Some_0;
        let r6 = expect(r6pre, '\n')->Some_0;
        let (ins, r7) = parse_inputs(r6, m2)->Some_0;
        lemma_parse_inputs_vols(r6, m2);
    }
}

/// Every volume a successful read produces is within range.
proof fn lemma_parse_inputs_vols(s: Seq<char>, n: nat)
    ensures
        parse_inputs(s, n) is Some ==> forall|k: int|
            0 <= k < parse_inputs(s, n)->Some_0.0.len() ==> (#[trigger] parse_inputs(
                s,
                n,
            )->Some_0.0[k]).1 <= MAX_VOLUME,
    decreases n,
{
    if n > 0 && parse_inputs(s, n) is Some {
        let (e, r) = parse_in_entry(s)->Some_0;
        lemma_parse_inputs_vols(r, (n - 1) as nat);
        let es = parse_inputs(r, (n - 1) as nat)->Some_0.0;
        assert(forall|k: int|
            1 <= k < parse_inputs(s, n)->Some_0.0.len() ==> parse_inputs(s, n)->Some_0.0[k]
                == es[k - 1]);
        assert(parse_inputs(s, n)->Some_0.0[0] == e);
    }
}

/// Reading digits from a digit string followed by a non-digit yields exactly
/// the digit string.
proof fn lemma_take_digits_exact(d: Seq<char>, rest: Seq<char>)
    requires
        forall|i: int| 0 <= i < d.len() ==> is_digit(#[trigger] d[i]),
        rest.len() == 0 || !is_digit(rest[0]),
    ensures
        take_digits(d + rest) == d,
    decreases d.len(),
{
    let s = d + rest;
    if d.len() == 0 {
        assert(s =~= rest);
    } else {
        assert(s[0] == d[0]);
        assert(s.drop_first() =~= d.drop_first() + rest);
        lemma_take_digits_exact(d.drop_first(), rest);
        assert(take_digits(s) == seq![d[0]] + d.drop_first());
        assert(seq![d[0]] + d.drop_first() =~= d);
    }
}

/// Reading a number from a rendered number followed by a non-digit yields
/// the number and the rest.
proof fn lemma_parse_num_of_ser(n: nat, rest: Seq<char>)
    requires
        n <= usize::MAX as nat,
        rest.len() == 0 || !is_digit(rest[0]),
    ensures
        parse_num(dec_digits(n) + rest) == Some((n, rest)),
{
    lemma_dec_digits_shape(n);
    lemma_dec_val_of_digits(n);
    lemma_take_digits_exact(dec_digits(n), rest);
    let s = dec_digits(n) + rest;
    assert(s.skip(dec_digits(n).len() as int) =~= rest);
}

/// Reading one character from itself followed by the rest yields the rest.
proof fn lemma_expect_of_ser(c: char, rest: Seq<char>)
    ensures
        expect(seq![c] + rest, c) == Some(rest),
{
    let s = seq![c] + rest;
    assert(s[0] == c);
    assert(s.drop_first() =~= rest);
}

/// Reading one stored output line back yields the id it was written from.
proof fn lemma_parse_out_entry_of_ser(id: Seq<char>, rest: Seq<char>)
    requires
        id.len() <= usize::MAX as nat,
    ensures
        parse_out_entry(ser_out_entry(id) + rest) == Some((id, rest)),
{
    let tail = seq![' '] + (id + (seq!['\n'] + rest));
    assert(ser_out_entry(id) + rest =~= dec_digits(id.len()) + tail);
    assert(!is_digit(tail[0]));
    lemma_parse_num_of_ser(id.len(), tail);
    lemma_expect_of_ser(' ', id + (seq!['\n'] + rest));
    let r2 = id + (seq!['\n'] + rest);
    assert(r2.len() >= id.len());
    assert(r2.take(id.len() as int) =~= id);
    assert(r2.skip(id.len() as int) =~= seq!['\n'] + rest);
    lemma_expect_of_ser('\n', rest);
}

/// Reading the stored output lines back yields the ids they were written
/// from.
proof fn lemma_parse_outputs_of_ser(ids: Seq<Seq<char>>, rest: Seq<char>)
    requires
        ids.len() <= usize::MAX as nat,
        forall|i: int| 0 <= i < ids.len() ==> (#[trigger] ids[i]).len() <= usize::MAX as nat,
    ensures
        parse_outputs(ser_outputs(ids) + rest, ids.len()) == Some((ids, rest)),
    decreases ids.len(),
{
    if ids.len() == 0 {
        assert(ser_outputs(ids) + rest =~= rest);
        assert(parse_outputs(rest, 0) == Some((Seq::<Seq<char>>::empty(), rest)));
        assert(Seq::<Seq<char>>::empty() =~= ids);
    } else {
        let s = ser_outputs(ids) + rest;
        assert(s =~= ser_out_entry(ids[0]) + (ser_outputs(ids.drop_first()) + rest));
        lemma_parse_out_entry_of_ser(ids[0], ser_outputs(ids.drop_first()) + rest);
        lemma_parse_outputs_of_ser(ids.drop_first(), rest);
        assert(seq![ids[0]] + ids.drop_first() =~= ids);
    }
}

/// Reading one stored input line back yields the entry it was written from.
proof fn lemma_parse_in_entry_of_ser(e: (Seq<char>, u8), rest: Seq<char>)
    requires
        e.0.len() <= usize::MAX as nat,
        e.1 <= MAX_VOLUME,
    ensures
        parse_in_entry(ser_in_entry(e) + rest) == Some((e, rest)),
{
    let vtail = dec_digits(e.1 as nat) + (seq!['\n'] + rest);
    let tail = seq![' '] + (e.0 + (seq![' '] + vtail));
    assert(ser_in_entry(e) + rest =~= dec_digits(e.0.len()) + tail);
    assert(!is_digit(tail[0]));
    lemma_parse_num_of_ser(e.0.len(), tail);
    lemma_expect_of_ser(' ', e.0 + (seq![' '] + vtail));
    let r2 = e.0 + (seq![' '] + vtail);
    assert(r2.len() >= e.0.len());
    assert(r2.take(e.0.len() as int) =~= e.0);
    assert(r2.skip(e.0.len() as int) =~= seq![' '] + vtail);
    lemma_expect_of_ser(' ', vtail);
    assert(seq!['\n'] + rest =~= Seq::<char>::empty().push('\n') + rest);
    assert(!is_digit((seq!['\n'] + rest)[0]));
    lemma_parse_num_of_ser(e.1 as nat, seq!['\n'] + rest);
    lemma_expect_of_ser('\n', rest);
}

/// Reading the stored input lines back yields the entries they were written
/// from.
proof fn lemma_parse_inputs_of_ser(es: Seq<(Seq<char>, u8)>, rest: Seq<char>)
    requires
        es.len() <= usize::MAX as nat,
        forall|i: int| 0 <= i < es.len() ==> (#[trigger] es[i]).0.len() <= usize::MAX as nat,
        forall|i: int| 0 <= i < es.len() ==> (#[trigger] es[i]).1 <= MAX_VOLUME,
    ensures
        parse_inputs(ser_inputs(es) + rest, es.len()) == Some((es, rest)),
    decreases es.len(),
{
    if es.len() == 0 {
        assert(ser_inputs(es) + rest =~= rest);
        assert(parse_inputs(rest, 0) == Some((Seq::<(Seq<char>, u8)>::empty(), rest)));
        assert(Seq::<(Seq<char>, u8)>::empty() =~= es);
    } else {
        let s = ser_inputs(es) + rest;
        assert(s =~= ser_in_entry(es[0]) + (ser_inputs(es.drop_first()) + rest));
        lemma_parse_in_entry_of_ser(es[0], ser_inputs(es.drop_first()) + rest);
        lemma_parse_inputs_of_ser(es.drop_first(), rest);
        assert(seq![es[0]] + es.drop_first() =~= es);
    }
}

/// Round-trip persistence: the stored text of any well-formed,
/// machine-representable record reads back as exactly that record, so
/// loading and re-saving never changes the stored text.
pub proof fn lemma_record_round_trip(m: CacheModel)
    requires
        m.wf(),
        m.outputs.len() <= usize::MAX as nat,
        m.inputs.len() <= usize::MAX as nat,
        forall|i: int| 0 <= i < m.outputs.len() ==> (#[trigger] m.outputs[i]).len() <= usize::MAX
            as nat,
        forall|i: int| 0 <= i < m.inputs.len() ==> (#[trigger] m.inputs[i]).0.len() <= usize::MAX
            as nat,
    ensures
        parse_record_spec(ser_record(m)) == Some(m),
{
    let s = ser_record(m);
    let outs_text = ser_outputs(m.outputs);
    let ins_text = ser_inputs(m.inputs);
    let r1 = dec_digits(m.outputs.len()) + (seq!['\n'] + (outs_text + (dec_digits(m.inputs.len())
        + (seq!['\n'] + ins_text))));
    assert(s =~= seq!['1'] + (seq!['\n'] + r1));
    lemma_expect_of_ser('1', seq!['\n'] + r1);
    lemma_expect_of_ser('\n', r1);
    lemma_dec_digits_shape(m.outputs.len());
    assert(!is_digit((seq!['\n'] + (outs_text + (dec_digits(m.inputs.len()) + (seq!['\n']
        + ins_text))))[0]));
    lemma_parse_num_of_ser(
        m.outputs.len(),
        seq!['\n'] + (outs_text + (dec_digits(m.inputs.len()) + (seq!['\n'] + ins_text))),
    );
    lemma_expect_of_ser('\n', outs_text + (dec_digits(m.inputs.len()) + (seq!['\n'] + ins_text)));
    lemma_parse_outputs_of_ser(
        m.outputs,
        dec_digits(m.inputs.len()) + (seq!['\n'] + ins_text),
    );
    lemma_dec_digits_shape(m.inputs.len());
    assert(!is_digit((seq!['\n'] + ins_text)[0]));
    lemma_parse_num_of_ser(m.inputs.len(), seq!['\n'] + ins_text);
    lemma_expect_of_ser('\n', ins_text);
    assert(ins_text + Seq::<char>::empty() =~= ins_text);
    lemma_parse_inputs_of_ser(m.inputs, Seq::<char>::empty());
    assert(parse_inputs(ins_text + Seq::<char>::empty(), m.inputs.len()) == Some(
        (m.inputs, Seq::<char>::empty()),
    ));
}

/// Append one stored output line to the text being built.
fn write_out_entry(s: &mut String, id: &String)
    ensures
        final(s)@ == old(s)@ + ser_out_entry(id@),
{
    let n = id.as_str().unicode_len();
    append_dec(s, n);
    s.append(" ");
    s.append(id.as_str());
    s.append("\n");
    proof {
        reveal_strlit(" ");
        reveal_strlit("\n");
        assert(s@ =~= old(s)@ + ser_out_entry(id@));
    }
}

/// Append one stored input line to the text being built.
fn write_in_entry(s: &mut String, id: &String, vol: u8)
    ensures
        final(s)@ == old(s)@ + ser_in_entry((id@, vol)),
{
    let n = id.as_str().unicode_len();
    append_dec(s, n);
    s.append(" ");
    s.append(id.as_str());
    s.append(" ");
    append_dec(s, vol as usize);
    s.append("\n");
    proof {
        reveal_strlit(" ");
        reveal_strlit("\n");
        assert(s@ =~= old(s)@ + ser_in_entry((id@, vol)));
    }
}

/// Values of a digit string never shrink as the string grows.
proof fn lemma_dec_val_prefix_le(s: Seq<char>, i: int)
    requires
        0 <= i <= s.len(),
    ensures
        dec_val(s.take(i)) <= dec_val(s),
    decreases s.len() - i,
{
    if i < s.len() {
        lemma_dec_val_prefix_le(s, i + 1);
        let p = s.take(i + 1);
        assert(p.drop_last() =~= s.take(i));
        assert(dec_val(p) == dec_val(s.take(i)) * 10 + digit_val(p.last()));
    } else {
        assert(s.take(i) =~= s);
    }
}

/// Read one expected character at `pos`.
fn expect_char(s: &str, n: usize, pos: usize, c: char) -> (r: Option<usize>)
    requires
        n == s@.len(),
        pos <= n,
    ensures
        match r {
            Some(p2) => p2 == pos + 1 && p2 <= n && expect(s@.skip(pos as int), c) == Some(
                s@.skip(p2 as int),
            ),
            None => expect(s@.skip(pos as int), c) is None,
        },
{
    let ghost t = s@.skip(pos as int);
    if pos < n {
        let ch = s.get_char(pos);
        proof {
            assert(t[0] == s@[pos as int]);
        }
        if ch == c {
            proof {
                assert(t.drop_first() =~= s@.skip(pos as int + 1));
            }
            return Some(pos + 1);
        }
    }
    None
}

/// Find the end of the digit run starting at `pos`.
fn scan_digits(s: &str, n: usize, pos: usize) -> (r: usize)
    requires
        n == s@.len(),
        pos <= n,
    ensures
        pos <= r <= n,
        take_digits(s@.skip(pos as int)) == s@.subrange(pos as int, r as int),
    decreases n - pos,
{
    let ghost t = s@.skip(pos as int);
    if pos < n {
        let c = s.get_char(pos);
        proof {
            assert(t[0] == s@[pos as int]);
        }
        if '0' as u32 <= c as u32 && c as u32 <= '9' as u32 {
            let r = scan_digits(s, n, pos + 1);
            proof {
                assert(is_digit(t[0]));
                assert(t.drop_first() =~= s@.skip(pos as int + 1));
                assert(take_digits(t) == seq![t[0]] + take_digits(t.drop_first()));
                assert(seq![t[0]] + s@.subrange(pos as int + 1, r as int) =~= s@.subrange(
                    pos as int,
                    r as int,
                ));
            }
            return r;
        }
        proof {
            assert(!is_digit(t[0]));
            assert(take_digits(t) == Seq::<char>::empty());
            assert(s@.subrange(pos as int, pos as int) =~= Seq::<char>::empty());
        }
        return pos;
    }
    proof {
        assert(t.len() == 0);
        assert(take_digits(t) == Seq::<char>::empty());
        assert(s@.subrange(pos as int, pos as int) =~= Seq::<char>::empty());
    }
    pos
}

/// Read a decimal number at `pos`: its value and the position after it.
fn parse_num_at(s: &str, n: usize, pos: usize) -> (r: Option<(usize, usize)>)
    requires
        n == s@.len(),
        pos <= n,
    ensures
        match r {
            Some(v) => pos <= v.1 <= n && parse_num(s@.skip(pos as int)) == Some(
                (v.0 as nat, s@.skip(v.1 as int)),
            ),
            None => parse_num(s@.skip(pos as int)) is None,
        },
{
    let ghost t = s@.skip(pos as int);
    let end = scan_digits(s, n, pos);
    let ghost digs = take_digits(t);
    proof {
        assert(digs.len() == end - pos);
        assert(forall|k: int| 0 <= k < digs.len() ==> t[k] == digs[k]);
    }
    if end == pos {
        return None;
    }
    let mut v: usize = 0;
    let mut i: usize = pos;
    proof {
        assert(digs.take(0) =~= Seq::<char>::empty());
    }
    while i < end
        invariant
            pos <= i <= end <= n,
            n == s@.len(),
            t == s@.skip(pos as int),
            digs == take_digits(t),
            digs == s@.subrange(pos as int, end as int),
            v == dec_val(digs.take(i - pos)),
        decreases end - i,
    {
        let c = s.get_char(i);
        proof {
            assert(digs[i - pos] == s@[i as int]);
            assert(is_digit(digs[i - pos])) by {
                lemma_take_digits_digits(t);
            }
        }
        let d = (c as u32 - 48) as usize;
        let ghost p = digs.take(i - pos + 1);
        proof {
            assert(p.drop_last() =~= digs.take(i - pos));
            assert(p.last() == digs[i - pos]);
            assert(digit_val(digs[i - pos]) == d);
            assert(dec_val(p) == v * 10 + d);
        }
        let q = (usize::MAX - d) / 10;
        if v > q {
            proof {
                assert(v * 10 + d > usize::MAX) by {
                    assert(v >= q + 1);
                    assert(usize::MAX - d < (q + 1) * 10);
                    assert(v * 10 >= (q + 1) * 10);
                }
                lemma_dec_val_prefix_le(digs, i - pos + 1);
                assert(dec_val(digs) > usize::MAX as nat);
            }
            return None;
        }
        proof {
            assert(v * 10 <= q * 10);
            assert(q * 10 <= usize::MAX - d);
        }
        v = v * 10 + d;
        i += 1;
    }
    proof {
        assert(digs.take(end - pos) =~= digs);
        assert(dec_val(digs) <= usize::MAX as nat);
        assert(t.skip(digs.len() as int) =~= s@.skip(end as int));
    }
    Some((v, end))
}

/// Every character `take_digits` keeps is a digit.
proof fn lemma_take_digits_digits(s: Seq<char>)
    ensures
        forall|k: int| 0 <= k < take_digits(s).len() ==> is_digit(#[trigger] take_digits(s)[k]),
    decreases s.len(),
{
    if s.len() > 0 && is_digit(s[0]) {
        lemma_take_digits_digits(s.drop_first());
        let t = take_digits(s);
        let u = take_digits(s.drop_first());
        assert(t == seq![s[0]] + u);
        assert(forall|k: int| 1 <= k < t.len() ==> t[k] == u[k - 1]);
        assert(t[0] == s[0]);
    }
}

/// Read one stored output line at `pos`: the id and the position after the
/// line.
fn parse_out_entry_at(s: &str, n: usize, pos: usize) -> (r: Option<(String, usize)>)
    requires
        n == s@.len(),
        pos <= n,
    ensures
        match r {
            Some(v) => pos <= v.1 <= n && parse_out_entry(s@.skip(pos as int)) == Some(
                (v.0@, s@.skip(v.1 as int)),
            ),
            None => parse_out_entry(s@.skip(pos as int)) is None,
        },
{
    let ghost t = s@.skip(pos as int);
    match parse_num_at(s, n, pos) {
        None => None,
        Some((len, p1)) => match expect_char(s, n, p1, ' ') {
            None => None,
            Some(p2) => {
                let ghost r2 = s@.skip(p2 as int);
                if len <= n - p2 {
                    let id = s.substring_char(p2, p2 + len).to_owned();
                    proof {
                        assert(r2.take(len as int) =~= s@.subrange(p2 as int, p2 as int + len
                            as int));
                        assert(r2.skip(len as int) =~= s@.skip(p2 as int + len as int));
                    }
                    match expect_char(s, n, p2 + len, '\n') {
                        None => None,
                        Some(p4) => Some((id, p4)),
                    }
                } else {
                    None
                }
            },
        },
    }
}

/// Read one stored input line at `pos`: the id, the volume, and the position
/// after the line.
fn parse_in_entry_at(s: &str, n: usize, pos: usize) -> (r: Option<(String, u8, usize)>)
    requires
        n == s@.len(),
        pos <= n,
    ensures
        match r {
            Some(v) => pos <= v.2 <= n && parse_in_entry(s@.skip(pos as int)) == Some(
                ((v.0@, v.1), s@.skip(v.2 as int)),
            ),
            None => parse_in_entry(s@.skip(pos as int)) is None,
        },
{
    let ghost t = s@.skip(pos as int);
    match parse_num_at(s, n, pos) {
        None => None,
        Some((len, p1)) => match expect_char(s, n, p1, ' ') {
            None => None,
            Some(p2) => {
                let ghost r2 = s@.skip(p2 as int);
                if len <= n - p2 {
                    let id = s.substring_char(p2, p2 + len).to_owned();
                    proof {
                        assert(r2.take(len as int) =~= s@.subrange(p2 as int, p2 as int + len
                            as int));
                        assert(r2.skip(len as int) =~= s@.skip(p2 as int + len as int));
                    }
                    match expect_char(s, n, p2 + len, ' ') {
                        None => None,
                        Some(p3) => match parse_num_at(s, n, p3) {
                            None => None,
                            Some((vol, p4)) => {
                                if vol > MAX_VOLUME as usize {
                                    None
                                } else {
                                    match expect_char(s, n, p4, '\n') {
                                        None => None,
                                        Some(p5) => Some((id, vol as u8, p5)),
                                    }
                                }
                            },
                        },
                    }
                } else {
                    None
                }
            },
        },
    }
}

/// Read `count` stored output lines at `pos`.
fn parse_outputs_at(s: &str, n: usize, pos: usize, count: usize) -> (r: Option<(Vec<String>, usize)>)
    requires
        n == s@.len(),
        pos <= n,
    ensures
        match r {
            Some(v) => v.1 <= n && parse_outputs(s@.skip(pos as int), count as nat) == Some(
                (out_ids(v.0@), s@.skip(v.1 as int)),
            ),
            None => parse_outputs(s@.skip(pos as int), count as nat) is None,
        },
{
    let ghost t0 = s@.skip(pos as int);
    let mut acc: Vec<String> = Vec::new();
    let mut cur: usize = pos;
    let mut i: usize = 0;
    proof {
        assert(out_ids(acc@) =~= Seq::<Seq<char>>::empty());
        if parse_outputs(t0, count as nat) is Some {
            let p = parse_outputs(t0, count as nat)->Some_0;
            assert(Seq::<Seq<char>>::empty() + p.0 =~= p.0);
        }
    }
    while i < count
        invariant
            i <= count,
            pos <= cur <= n,
            n == s@.len(),
            t0 == s@.skip(pos as int),
            parse_outputs(t0, count as nat) == (match parse_outputs(
                s@.skip(cur as int),
                (count - i) as nat,
            ) {
                None => None::<(Seq<Seq<char>>, Seq<char>)>,
                Some(p) => Some((out_ids(acc@) + p.0, p.1)),
            }),
        decreases count - i,
    {
        match parse_out_entry_at(s, n, cur) {
            None => {
                proof {
                    assert(parse_outputs(s@.skip(cur as int), (count - i) as nat) is None);
                }
                return None;
            },
            Some((id, p2)) => {
                let ghost tc = s@.skip(cur as int);
                let ghost tn = s@.skip(p2 as int);
                proof {
                    assert(parse_out_entry(tc) == Some((id@, tn)));
                    assert(parse_outputs(tc, (count - i) as nat) == (match parse_outputs(
                        tn,
                        (count - i - 1) as nat,
                    ) {
                        None => None::<(Seq<Seq<char>>, Seq<char>)>,
                        Some(p) => Some((seq![id@] + p.0, p.1)),
                    }));
                }
                let ghost acc_old = acc@;
                acc.push(id);
                proof {
                    assert(out_ids(acc@) =~= out_ids(acc_old).push(acc@.last()@));
                    if parse_outputs(tn, (count - i - 1) as nat) is Some {
                        let p = parse_outputs(tn, (count - i - 1) as nat)->Some_0;
                        assert(out_ids(acc_old) + (seq![acc@.last()@] + p.0) =~= out_ids(acc@)
                            + p.0);
                    }
                }
                cur = p2;
            },
        }
        i += 1;
    }
    proof {
        assert(parse_outputs(s@.skip(cur as int), 0) == Some(
            (Seq::<Seq<char>>::empty(), s@.skip(cur as int)),
        ));
        assert(out_ids(acc@) + Seq::<Seq<char>>::empty() =~= out_ids(acc@));
    }
    Some((acc, cur))
}

/// Read `count` stored input lines at `pos`.
fn parse_inputs_at(s: &str, n: usize, pos: usize, count: usize) -> (r: Option<
    (Vec<(String, u8)>, usize),
>)
    requires
        n == s@.len(),
        pos <= n,
    ensures
        match r {
            Some(v) => v.1 <= n && parse_inputs(s@.skip(pos as int), count as nat) == Some(
                (in_pairs(v.0@), s@.skip(v.1 as int)),
            ),
            None => parse_inputs(s@.skip(pos as int), count as nat) is None,
        },
{
    let ghost t0 = s@.skip(pos as int);
    let mut acc: Vec<(String, u8)> = Vec::new();
    let mut cur: usize = pos;
    let mut i: usize = 0;
    proof {
        assert(in_pairs(acc@) =~= Seq::<(Seq<char>, u8)>::empty());
        if parse_inputs(t0, count as nat) is Some {
            let p = parse_inputs(t0, count as nat)->Some_0;
            assert(Seq::<(Seq<char>, u8)>::empty() + p.0 =~= p.0);
        }
    }
    while i < count
        invariant
            i <= count,
            pos <= cur <= n,
            n == s@.len(),
            t0 == s@.skip(pos as int),
            parse_inputs(t0, count as nat) == (match parse_inputs(
                s@.skip(cur as int),
                (count - i) as nat,
            ) {
                None => None::<(Seq<(Seq<char>, u8)>, Seq<char>)>,
                Some(p) => Some((in_pairs(acc@) + p.0, p.1)),
            }),
        decreases count - i,
    {
        match parse_in_entry_at(s, n, cur) {
            None => {
                proof {
                    assert(parse_inputs(s@.skip(cur as int), (count - i) as nat) is None);
                }
                return None;
            },
            Some((id, vol, p2)) => {
                let ghost tc = s@.skip(cur as int);
                let ghost tn = s@.skip(p2 as int);
                proof {
                    assert(parse_in_entry(tc) == Some(((id@, vol), tn)));
                    assert(parse_inputs(tc, (count - i) as nat) == (match parse_inputs(
                        tn,
                        (count - i - 1) as nat,
                    ) {
                        None => None::<(Seq<(Seq<char>, u8)>, Seq<char>)>,
                        Some(p) => Some((seq![(id@, vol)] + p.0, p.1)),
                    }));
                }
                let ghost acc_old = acc@;
                acc.push((id, vol));
                proof {
                    assert(in_pairs(acc@) =~= in_pairs(acc_old).push(
                        (acc@.last().0@, acc@.last().1),
                    ));
                    if parse_inputs(tn, (count - i - 1) as nat) is Some {
                        let p = parse_inputs(tn, (count - i - 1) as nat)->Some_0;
                        assert(in_pairs(acc_old) + (seq![(acc@.last().0@, acc@.last().1)] + p.0)
                            =~= in_pairs(acc@) + p.0);
                    }
                }
                cur = p2;
            },
        }
        i += 1;
    }
    proof {
        assert(parse_inputs(s@.skip(cur as int), 0) == Some(
            (Seq::<(Seq<char>, u8)>::empty(), s@.skip(cur as int)),
        ));
        assert(in_pairs(acc@) + Seq::<(Seq<char>, u8)>::empty() =~= in_pairs(acc@));
    }
    Some((acc, cur))
}

/// Whether no owned string occurs twice.
fn distinct_strings(v: &Vec<String>) -> (r: bool)
    ensures
        r == distinct_ids(out_ids(v@)),
{
    let ghost ids = out_ids(v@);
    let mut i: usize = 0;
    while i < v.len()
        invariant
            i <= v.len(),
            ids == out_ids(v@),
            forall|a: int, b: int| 0 <= a < b < i ==> ids[a] != ids[b],
        decreases v.len() - i,
    {
        let mut j: usize = 0;
        while j < i
            invariant
                j <= i < v.len(),
                ids == out_ids(v@),
                forall|a: int| 0 <= a < j ==> ids[a] != ids[i as int],
            decreases i - j,
        {
            if v[j] == v[i] {
                proof {
                    assert(ids[j as int] == ids[i as int]);
                }
                return false;
            }
            j += 1;
        }
        i += 1;
    }
    true
}

/// Whether no input key occurs twice.
fn distinct_input_keys(v: &Vec<(String, u8)>) -> (r: bool)
    ensures
        r == distinct_keys(in_pairs(v@)),
{
    let ghost pairs = in_pairs(v@);
    let mut i: usize = 0;
    while i < v.len()
        invariant
            i <= v.len(),
            pairs == in_pairs(v@),
            forall|a: int, b: int| 0 <= a < b < i ==> pairs[a].0 != pairs[b].0,
        decreases v.len() - i,
    {
        let mut j: usize = 0;
        while j < i
            invariant
                j <= i < v.len(),
                pairs == in_pairs(v@),
                forall|a: int| 0 <= a < j ==> pairs[a].0 != pairs[i as int].0,
            decreases i - j,
        {
            if v[j].0 == v[i].0 {
                proof {
                    assert(pairs[j as int].0 == pairs[i as int].0);
                }
                return false;
            }
            j += 1;
        }
        i += 1;
    }
    true
}

/// Read a stored record back from its text. Returns the record exactly when
/// the text is a well-formed stored record; any other text is rejected.
pub fn parse_record(s: &str) -> (r: Option<Cache>)
    ensures
        match r {
            Some(c) => parse_record_spec(s@) == Some(c@) && c@.wf(),
            None => parse_record_spec(s@) is None,
        },
{
    let n = s.unicode_len();
    proof {
        assert(s@.skip(0) =~= s@);
    }
    let p0 = match expect_char(s, n, 0, '1') {
        None => {
            return None;
        },
        Some(p) => p,
    };
    let p1 = match expect_char(s, n, p0, '\n') {
        None => {
            return None;
        },
        Some(p) => p,
    };
    let (cnt_out, p2) = match parse_num_at(s, n, p1) {
        None => {
            return None;
        },
        Some(v) => v,
    };
    let p3 = match expect_char(s, n, p2, '\n') {
        None => {
            return None;
        },
        Some(p) => p,
    };
    let (outs, p4) = match parse_outputs_at(s, n, p3, cnt_out) {
        None => {
            return None;
        },
        Some(v) => v,
    };
    let (cnt_in, p5) = match parse_num_at(s, n, p4) {
        None => {
            return None;
        },
        Some(v) => v,
    };
    let p6 = match expect_char(s, n, p5, '\n') {
        None => {
            return None;
        },
        Some(p) => p,
    };
    let (ins, p7) = match parse_inputs_at(s, n, p6, cnt_in) {
        None => {
            return None;
        },
        Some(v) => v,
    };
    if p7 != n {
        return None;
    }
    if !distinct_strings(&outs) {
        return None;
    }
    if !distinct_input_keys(&ins) {
        return None;
    }
    proof {
        lemma_parse_inputs_vols(s@.skip(p6 as int), cnt_in as nat);
    }
    Some(Cache { output_devices: outs, input_devices: ins })
}

/// Render a record as its stored text.
pub fn serialize_record(record: &Cache) -> (r: String)
    ensures
        r@ == ser_record(record@),
{
    let ghost outs = out_ids(record.output_devices@);
    let ghost ins = in_pairs(record.input_devices@);
    let mut s = String::new();
    s.append("1\n");
    append_dec(&mut s, record.output_devices.len());
    s.append("\n");
    let ghost head = s@;
    proof {
        assert(ser_outputs(outs.take(0)) =~= Seq::<char>::empty());
        assert(head + Seq::<char>::empty() =~= head);
    }
    let mut i: usize = 0;
    while i < record.output_devices.len()
        invariant
            i <= record.output_devices.len(),
            outs == out_ids(record.output_devices@),
            s@ == head + ser_outputs(outs.take(i as int)),
        decreases record.output_devices.len() - i,
    {
        write_out_entry(&mut s, &record.output_devices[i]);
        proof {
            assert(outs.take(i + 1) =~= outs.take(i as int).push(outs[i as int]));
            lemma_ser_outputs_snoc(outs.take(i as int), outs[i as int]);
            assert((head + ser_outputs(outs.take(i as int))) + ser_out_entry(outs[i as int]) =~=
            head + ser_outputs(outs.take(i + 1)));
        }
        i += 1;
    }
    proof {
        assert(outs.take(record.output_devices@.len() as int) =~= outs);
    }
    append_dec(&mut s, record.input_devices.len());
    s.append("\n");
    let ghost head2 = s@;
    proof {
        assert(ser_inputs(ins.take(0)) =~= Seq::<char>::empty());
        assert(head2 + Seq::<char>::empty() =~= head2);
    }
    let mut j: usize = 0;
    while j < record.input_devices.len()
        invariant
            j <= record.input_devices.len(),
            ins == in_pairs(record.input_devices@),
            s@ == head2 + ser_inputs(ins.take(j as int)),
        decreases record.input_devices.len() - j,
    {
        write_in_entry(&mut s, &record.input_devices[j].0, record.input_devices[j].1);
        proof {
            assert(ins.take(j + 1) =~= ins.take(j as int).push(ins[j as int]));
            lemma_ser_inputs_snoc(ins.take(j as int), ins[j as int]);
            assert((head2 + ser_inputs(ins.take(j as int))) + ser_in_entry(ins[j as int]) =~= head2
                + ser_inputs(ins.take(j + 1)));
        }
        j += 1;
    }
    proof {
        assert(ins.take(record.input_devices@.len() as int) =~= ins);
        reveal_strlit("1\n");
        reveal_strlit("\n");
        assert(s@ =~= ser_record(record@));
    }
    s
}

} // verus!
