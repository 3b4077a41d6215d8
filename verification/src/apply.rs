//! Applying Text Changes to Text.
use crate::change::{byte_len, in_len, lemma_encode_utf8_concat, lemma_lengths_prefix, TextChange, TextOp};
use crate::error::{ApplyError, out_of_bounds_at_root, overflow_at_root};
use crate::model::{OpView, Unit, apply_ops, consumed, expand, lemma_consumed_concat, lemma_consumed_keeps, lemma_consumed_puts, lemma_expand_push, lemma_puts_concat, lemma_run_concat, lemma_run_drops, lemma_run_keeps, op_steps, puts, run};
use crate::path::Path;
use crate::text_buf::push_char;
use crate::value::{chars_of, Text};
use vstd::prelude::*;
use vstd::utf8::{char_is_scalar, encode_scalar, encode_utf8};

verus! {

/// The output produced from the consumed prefix of `base`.
pub open spec fn produced_text(ops: Seq<OpView>, base: Seq<char>) -> Seq<char> {
    run(expand(ops), base.take(in_len(ops) as int))
}

/// UTF-8 bytes of all inserted texts.
pub open spec fn insert_bytes(ops: Seq<OpView>) -> nat
    decreases ops.len(),
{
    if ops.len() == 0 {
        0
    } else {
        insert_bytes(ops.drop_last()) + match ops.last() {
            OpView::Insert(s) => byte_len(s),
            _ => 0nat,
        }
    }
}

/// What one operation writes, given the base from its position on.
pub open spec fn op_output(op: OpView, rest: Seq<char>) -> Seq<char> {
    match op {
        OpView::Retain(n) => rest.take(n as int),
        OpView::Insert(s) => s,
        OpView::Delete(_) => seq![],
    }
}

pub proof fn lemma_consumed_expand(ops: Seq<OpView>)
    ensures
        consumed(expand(ops)) == in_len(ops),
    decreases ops.len(),
{
    if ops.len() > 0 {
        let p = ops.drop_last();
        lemma_consumed_expand(p);
        lemma_expand_push(p, ops.last());
        assert(p.push(ops.last()) =~= ops);
        lemma_consumed_concat(expand(p), op_steps(ops.last()));
        match ops.last() {
            OpView::Retain(n) => lemma_consumed_keeps(n),
            OpView::Delete(n) => lemma_consumed_keeps(n),
            OpView::Insert(s) => lemma_consumed_puts(s),
        }
    }
}

pub proof fn lemma_run_puts(s: Seq<char>, t: Seq<char>)
    ensures
        run(puts(s), t) == s + t,
    decreases s.len(),
{
    if s.len() > 0 {
        lemma_puts_concat(seq![s[0]], s.drop_first());
        assert(seq![s[0]] + s.drop_first() =~= s);
        assert(seq![s[0]].drop_last() =~= Seq::<char>::empty());
        assert(puts(Seq::<char>::empty()) =~= Seq::<Unit<char>>::empty());
        assert(puts(seq![s[0]]) =~= seq![Unit::Put(s[0])]);
        let r = puts(s.drop_first());
        assert((seq![Unit::Put(s[0])] + r).drop_first() =~= r);
        lemma_run_puts(s.drop_first(), t);
        assert(seq![s[0]] + (s.drop_first() + t) =~= s + t);
    } else {
        assert(s + t =~= t);
        assert(puts(s) =~= Seq::<Unit<char>>::empty());
    }
}

/// Extending a stream by one operation extends its output by what that
/// operation writes.
pub proof fn lemma_produced_push(ops: Seq<OpView>, op: OpView, base: Seq<char>)
    requires
        in_len(ops.push(op)) <= base.len(),
    ensures
        produced_text(ops.push(op), base) =~= produced_text(ops, base) + op_output(
            op,
            base.skip(in_len(ops) as int),
        ),
{
    let l = in_len(ops);
    let q = ops.push(op);
    assert(q.drop_last() =~= ops);
    let l2 = in_len(q);
    lemma_expand_push(ops, op);
    lemma_consumed_expand(ops);
    let b2 = base.take(l2 as int);
    lemma_run_concat(expand(ops), op_steps(op), b2);
    assert(b2.take(l as int) =~= base.take(l as int));
    let mid = b2.skip(l as int);
    match op {
        OpView::Retain(n) => {
            assert(mid =~= base.skip(l as int).take(n as int));
            lemma_run_keeps(n, mid);
        },
        OpView::Delete(n) => {
            lemma_run_drops(n, mid);
            assert(mid.skip(n as int) =~= Seq::<char>::empty());
        },
        OpView::Insert(s) => {
            assert(mid =~= Seq::<char>::empty());
            lemma_run_puts(s, mid);
            assert(s + mid =~= s);
        },
    }
}

/// The full result is the produced output followed by the untouched rest.
pub proof fn lemma_apply_split(ops: Seq<OpView>, base: Seq<char>)
    requires
        in_len(ops) <= base.len(),
    ensures
        apply_ops(ops, base) == Some(produced_text(ops, base) + base.skip(in_len(ops) as int)),
{
    lemma_consumed_expand(ops);
    let e = Seq::<Unit<char>>::empty();
    lemma_run_concat(expand(ops), e, base);
    assert(expand(ops) + e =~= expand(ops));
}

pub proof fn lemma_byte_len_single(c: char)
    ensures
        byte_len(seq![c]) == encode_scalar(c as u32).len(),
{
    assert(seq![c].drop_first() =~= Seq::<char>::empty());
    assert(encode_utf8(Seq::<char>::empty()) =~= Seq::<u8>::empty());
}

/// UTF-8 length of one scalar.
pub fn char_utf8_len(c: char) -> (n: usize)
    ensures
        n == byte_len(seq![c]),
        1 <= n <= 4,
        (c as u32) >= 0x10000 ==> n == 4,
{
    proof {
        lemma_byte_len_single(c);
        char_is_scalar(c);
    }
    let v = c as u32;
    if v <= 0x7F {
        1
    } else if v <= 0x7FF {
        2
    } else if v <= 0xFFFF {
        3
    } else {
        4
    }
}

pub proof fn lemma_byte_len_prefix(s: Seq<char>, k: int)
    requires
        0 <= k <= s.len(),
    ensures
        byte_len(s.take(k)) <= byte_len(s),
        byte_len(s) == byte_len(s.take(k)) + byte_len(s.skip(k)),
{
    assert(s.take(k) + s.skip(k) =~= s);
    lemma_encode_utf8_concat(s.take(k), s.skip(k));
}

/// Output-byte accumulation rejects `usize` overflow.
pub fn checked_output_advance(current: usize, amount: usize) -> (r: Result<usize, ApplyError>)
    ensures
        current + amount <= usize::MAX ==> r == Ok::<usize, ApplyError>(
            (current + amount) as usize,
        ),
        current + amount > usize::MAX ==> r is Err && overflow_at_root(r->Err_0),
{
    match current.checked_add(amount) {
        Some(n) => Ok(n),
        None => Err(ApplyError::SequenceLengthOverflow { path: Path::new() }),
    }
}

/// Input advancement rejects consuming past the base.
fn checked_input_advance(current: usize, amount: usize, len: usize) -> (r: Result<
    usize,
    ApplyError,
>)
    ensures
        current + amount <= len ==> r == Ok::<usize, ApplyError>((current + amount) as usize),
        current + amount > len ==> r is Err && out_of_bounds_at_root(r->Err_0),
{
    match current.checked_add(amount) {
        Some(next) => if next > len {
            Err(ApplyError::SequenceOutOfBounds { path: Path::new() })
        } else {
            Ok(next)
        },
        None => Err(ApplyError::SequenceOutOfBounds { path: Path::new() }),
    }
}

/// Adds the UTF-8 lengths of `chars[from..to]` to `current`.
fn add_char_bytes(current: usize, chars: &Vec<char>, from: usize, to: usize) -> (r: Result<
    usize,
    ApplyError,
>)
    requires
        from <= to <= chars.len(),
    ensures
        current + byte_len(chars@.subrange(from as int, to as int)) <= usize::MAX ==> r
            == Ok::<usize, ApplyError>(
            (current + byte_len(chars@.subrange(from as int, to as int))) as usize,
        ),
        current + byte_len(chars@.subrange(from as int, to as int)) > usize::MAX ==> r is Err
            && overflow_at_root(r->Err_0),
{
    let ghost s = chars@.subrange(from as int, to as int);
    let mut total = current;
    let mut i = from;
    proof {
        assert(chars@.subrange(from as int, from as int) =~= Seq::<char>::empty());
        assert(encode_utf8(Seq::<char>::empty()) =~= Seq::<u8>::empty());
    }
    while i < to
        invariant
            from <= i <= to <= chars.len(),
            s == chars@.subrange(from as int, to as int),
            total == current + byte_len(chars@.subrange(from as int, i as int)),
        decreases to - i,
    {
        let ghost before = chars@.subrange(from as int, i as int);
        proof {
            assert(chars@.subrange(from as int, i + 1) =~= before + seq![chars@[i as int]]);
            lemma_encode_utf8_concat(before, seq![chars@[i as int]]);
            assert(s.take(i - from) =~= before);
            assert(s.take(i + 1 - from) =~= chars@.subrange(from as int, i + 1));
            lemma_byte_len_prefix(s, i + 1 - from);
        }
        let step = checked_output_advance(total, char_utf8_len(chars[i]));
        match step {
            Ok(n) => {
                total = n;
            },
            Err(e) => {
                return Err(e);
            },
        }
        i = i + 1;
    }
    Ok(total)
}

} // verus!

verus! {

pub proof fn lemma_insert_bytes_prefix(v: Seq<OpView>, k: int)
    requires
        0 <= k <= v.len(),
    ensures
        insert_bytes(v.take(k)) <= insert_bytes(v),
    decreases v.len() - k,
{
    if k < v.len() {
        assert(v.take(k + 1).drop_last() =~= v.take(k));
        lemma_insert_bytes_prefix(v, k + 1);
    } else {
        assert(v.take(k) =~= v);
    }
}

/// Output bytes only grow as more of a stream is processed.
pub proof fn lemma_produced_prefix(v: Seq<OpView>, k: int, base: Seq<char>)
    requires
        0 <= k <= v.len(),
        in_len(v) <= base.len(),
    ensures
        byte_len(produced_text(v.take(k), base)) <= byte_len(produced_text(v, base)),
    decreases v.len() - k,
{
    if k < v.len() {
        let p = v.take(k);
        let op = v[k];
        assert(v.take(k + 1) =~= p.push(op));
        lemma_lengths_prefix(v, k + 1);
        lemma_produced_push(p, op, base);
        lemma_encode_utf8_concat(
            produced_text(p, base),
            op_output(op, base.skip(in_len(p) as int)),
        );
        lemma_produced_prefix(v, k + 1, base);
    } else {
        assert(v.take(k) =~= v);
    }
}

/// Computes the UTF-8 length of the result of applying `change` to `base`,
/// rejecting consumption past the base and oversized results.
fn text_output_capacity(change: &TextChange, base: &Vec<char>) -> (r: Result<usize, ApplyError>)
    ensures
        r is Ok <==> (in_len(change@) <= base@.len() && byte_len(run(expand(change@), base@))
            <= isize::MAX),
        r matches Ok(n) ==> n == byte_len(run(expand(change@), base@)),
        r is Err ==> (out_of_bounds_at_root(r->Err_0) || overflow_at_root(r->Err_0)),
        r is Err && out_of_bounds_at_root(r->Err_0) ==> in_len(change@) > base@.len(),
        r is Err && overflow_at_root(r->Err_0) ==> (in_len(change@) > base@.len() || byte_len(
            run(expand(change@), base@),
        ) > isize::MAX),
        byte_len(base@) + insert_bytes(change@) <= usize::MAX ==> (in_len(change@) > base@.len()
            ==> r is Err && out_of_bounds_at_root(r->Err_0)),
{
    let ops = change.ops();
    let ghost v = change@;
    let ghost b = base@;
    let mut input: usize = 0;
    let mut bytes: usize = 0;
    let mut i: usize = 0;
    proof {
        assert(v.take(0) =~= Seq::<OpView>::empty());
        assert(b.take(0) =~= Seq::<char>::empty());
        assert(expand(Seq::<OpView>::empty()) =~= Seq::<Unit<char>>::empty());
        assert(encode_utf8(Seq::<char>::empty()) =~= Seq::<u8>::empty());
    }
    while i < ops.len()
        invariant
            ops.deep_view() == v,
            v == change@,
            crate::change::canonical(v),
            b == base@,
            i <= v.len(),
            input == in_len(v.take(i as int)),
            input <= b.len(),
            bytes == byte_len(produced_text(v.take(i as int), b)),
            bytes <= byte_len(b.take(input as int)) + insert_bytes(v.take(i as int)),
        decreases v.len() - i,
    {
        let ghost p = v.take(i as int);
        let ghost op = v[i as int];
        proof {
            assert(v.take(i + 1) =~= p.push(op));
            assert(v.take(i + 1).drop_last() =~= p);
            lemma_lengths_prefix(v, i + 1);
            lemma_insert_bytes_prefix(v, i + 1);
            assert(op == ops@[i as int].deep_view());
        }
        match &ops[i] {
            TextOp::Retain(len) => {
                let end = match checked_input_advance(input, *len, base.len()) {
                    Ok(end) => end,
                    Err(e) => {
                        return Err(e);
                    },
                };
                proof {
                    lemma_produced_push(p, op, b);
                    assert(op_output(op, b.skip(input as int)) =~= b.subrange(
                        input as int,
                        end as int,
                    ));
                    lemma_encode_utf8_concat(produced_text(p, b), b.subrange(input as int, end as int));
                    assert(b.take(end as int) =~= b.take(input as int) + b.subrange(input as int, end as int));
                    lemma_encode_utf8_concat(b.take(input as int), b.subrange(input as int, end as int));
                    if in_len(v) <= b.len() {
                        lemma_produced_prefix(v, i + 1, b);
                        lemma_apply_split(v, b);
                        lemma_encode_utf8_concat(produced_text(v, b), b.skip(in_len(v) as int));
                    }
                    lemma_byte_len_prefix(b, end as int);
                }
                bytes = match add_char_bytes(bytes, base, input, end) {
                    Ok(n) => n,
                    Err(e) => {
                        return Err(e);
                    },
                };
                input = end;
            },
            TextOp::Insert(value) => {
                proof {
                    lemma_produced_push(p, op, b);
                    lemma_encode_utf8_concat(produced_text(p, b), value@);
                    if in_len(v) <= b.len() {
                        lemma_produced_prefix(v, i + 1, b);
                        lemma_apply_split(v, b);
                        lemma_encode_utf8_concat(produced_text(v, b), b.skip(in_len(v) as int));
                    }
                    lemma_byte_len_prefix(b, input as int);
                    assert(crate::change::insert_fits(v[i as int]));
                }
                bytes = match checked_output_advance(bytes, value.as_str().len()) {
                    Ok(n) => n,
                    Err(e) => {
                        return Err(e);
                    },
                };
            },
            TextOp::Delete(len) => {
                let end = match checked_input_advance(input, *len, base.len()) {
                    Ok(end) => end,
                    Err(e) => {
                        return Err(e);
                    },
                };
                proof {
                    lemma_produced_push(p, op, b);
                    assert(produced_text(v.take(i + 1), b) =~= produced_text(p, b));
                    assert(b.take(end as int) =~= b.take(input as int) + b.subrange(input as int, end as int));
                    lemma_encode_utf8_concat(b.take(input as int), b.subrange(input as int, end as int));
                }
                input = end;
            },
        }
        i = i + 1;
    }
    proof {
        assert(v.take(i as int) =~= v);
        lemma_apply_split(v, b);
        lemma_encode_utf8_concat(produced_text(v, b), b.skip(input as int));
        lemma_byte_len_prefix(b, input as int);
        assert(b.subrange(input as int, b.len() as int) =~= b.skip(input as int));
    }
    bytes = match add_char_bytes(bytes, base, input, base.len()) {
        Ok(n) => n,
        Err(e) => {
            return Err(e);
        },
    };
    if bytes > isize::MAX as usize {
        return Err(ApplyError::SequenceLengthOverflow { path: Path::new() });
    }
    Ok(bytes)
}

} // verus!

verus! {

/// Appends `chars[from..to]` to `out`.
pub(crate) fn push_chars(out: &mut String, chars: &Vec<char>, from: usize, to: usize)
    requires
        from <= to <= chars.len(),
    ensures
        final(out)@ == old(out)@ + chars@.subrange(from as int, to as int),
{
    let mut i = from;
    while i < to
        invariant
            from <= i <= to <= chars.len(),
            out@ == old(out)@ + chars@.subrange(from as int, i as int),
        decreases to - i,
    {
        push_char(out, chars[i]);
        i = i + 1;
        proof {
            assert(chars@.subrange(from as int, i as int) =~= chars@.subrange(
                from as int,
                i - 1,
            ).push(chars@[i - 1]));
        }
    }
}

/// The number of base scalars a Text Change consumes.
fn text_input_len(change: &TextChange) -> (n: usize)
    ensures
        n == in_len(change@),
{
    let ops = change.ops();
    let ghost v = change@;
    let mut n: usize = 0;
    let mut i: usize = 0;
    proof {
        assert(v.take(0) =~= Seq::<OpView>::empty());
    }
    while i < ops.len()
        invariant
            ops.deep_view() == v,
            v == change@,
            crate::change::lengths_fit(v),
            i <= v.len(),
            n == in_len(v.take(i as int)),
        decreases v.len() - i,
    {
        proof {
            assert(v.take(i + 1).drop_last() =~= v.take(i as int));
            assert(v.take(i + 1).last() == ops@[i as int].deep_view());
            lemma_lengths_prefix(v, i + 1);
        }
        match &ops[i] {
            TextOp::Retain(len) => {
                n = n + *len;
            },
            TextOp::Insert(_) => {},
            TextOp::Delete(len) => {
                n = n + *len;
            },
        }
        i = i + 1;
    }
    proof {
        assert(v.take(i as int) =~= v);
    }
    n
}

/// Applies a Text Change to Text.
///
/// Fails with `SequenceOutOfBounds` when the Change consumes past the base,
/// and with `SequenceLengthOverflow` when the result would not fit in one
/// allocation. The input is unchanged on every error path.
pub fn apply_text(base: &Text, change: &TextChange) -> (r: Result<Text, ApplyError>)
    ensures
        match apply_ops(change@, base@) {
            None => r is Err && out_of_bounds_at_root(r->Err_0),
            Some(t) => if byte_len(t) <= isize::MAX {
                r is Ok && r->Ok_0@ == t
            } else {
                r is Err && overflow_at_root(r->Err_0)
            },
        },
{
    let chars = chars_of(base.as_str());
    proof {
        lemma_consumed_expand(change@);
    }
    if text_input_len(change) > chars.len() {
        return Err(ApplyError::SequenceOutOfBounds { path: Path::new() });
    }
    let capacity = text_output_capacity(change, &chars);
    match capacity {
        Ok(_) => {},
        Err(e) => {
            return Err(e);
        },
    }
    let ops = change.ops();
    let ghost v = change@;
    let ghost b = base@;
    let mut out = String::new();
    let mut index: usize = 0;
    let mut i: usize = 0;
    proof {
        assert(v.take(0) =~= Seq::<OpView>::empty());
        assert(b.take(0) =~= Seq::<char>::empty());
        assert(expand(Seq::<OpView>::empty()) =~= Seq::<Unit<char>>::empty());
    }
    while i < ops.len()
        invariant
            ops.deep_view() == v,
            v == change@,
            chars@ == b,
            in_len(v) <= b.len(),
            i <= v.len(),
            index == in_len(v.take(i as int)),
            out@ == produced_text(v.take(i as int), b),
        decreases v.len() - i,
    {
        let ghost p = v.take(i as int);
        let ghost op = v[i as int];
        proof {
            assert(v.take(i + 1) =~= p.push(op));
            assert(v.take(i + 1).drop_last() =~= p);
            lemma_lengths_prefix(v, i + 1);
            assert(op == ops@[i as int].deep_view());
            lemma_produced_push(p, op, b);
        }
        match &ops[i] {
            TextOp::Retain(len) => {
                assert(in_len(v.take(i + 1)) == index + *len);
                assert(index + *len <= chars.len());
                let end = index + *len;
                push_chars(&mut out, &chars, index, end);
                proof {
                    assert(op_output(op, b.skip(index as int)) =~= b.subrange(
                        index as int,
                        end as int,
                    ));
                }
                index = end;
            },
            TextOp::Insert(value) => {
                out.append(value.as_str());
            },
            TextOp::Delete(len) => {
                assert(in_len(v.take(i + 1)) == index + *len);
                index = index + *len;
                proof {
                    assert(produced_text(v.take(i + 1), b) =~= produced_text(p, b));
                }
            },
        }
        i = i + 1;
    }
    proof {
        assert(v.take(i as int) =~= v);
        lemma_apply_split(v, b);
        assert(b.subrange(index as int, b.len() as int) =~= b.skip(index as int));
    }
    push_chars(&mut out, &chars, index, chars.len());
    Ok(Text::from_string(out))
}

} // verus!
