use vstd::prelude::*;
use crate::error::DecodeError;
use crate::scalar::{
    bytestr_scan,
    bytestr_spec,
    decode_bytestr,
    decode_int,
    int_scan,
    int_spec,
    is_digit,
    DICT_START,
    DIGIT_NINE,
    DIGIT_ZERO,
    END,
    INT_START,
    LIST_START,
};
use crate::value::{
    dict_insert,
    dict_put,
    entry_models,
    lemma_dict_model,
    lemma_list_model,
    models,
    BencodeValue,
    Val,
};

verus! {

/// The kind of an open scope: the whole input, a list or a dictionary.
#[derive(PartialEq, Eq, Clone, Copy, Structural)]
pub enum ScopeType {
    Root,
    List,
    Dict,
}

/// The model of an open scope: its kind and the values gathered in it so far.
pub struct Frame {
    pub kind: ScopeType,
    pub items: Seq<Val>,
}

/// The stack with `v` appended to the items of its top scope.
pub open spec fn push_item(stack: Seq<Frame>, v: Val) -> Seq<Frame> {
    let top = stack.last();
    stack.update(stack.len() - 1, Frame { kind: top.kind, items: top.items.push(v) })
}

/// The items of a dictionary scope can be folded: an even number of them,
/// each key a byte string.
pub open spec fn dict_items_ok(items: Seq<Val>) -> bool {
    &&& items.len() % 2 == 0
    &&& forall|j: int| 0 <= j < items.len() && j % 2 == 0 ==> #[trigger] items[j] is Bytes
}

/// The entries of a dictionary whose items alternate key and value, taken
/// in order, so that a repeated key keeps its last value.
pub open spec fn dict_of(items: Seq<Val>) -> Seq<(Seq<u8>, Val)>
    decreases items.len(),
{
    if items.len() < 2 {
        Seq::empty()
    } else {
        dict_put(
            dict_of(items.subrange(0, items.len() - 2)),
            items[items.len() - 2]->Bytes_0,
            items[items.len() - 1],
        )
    }
}

/// One transition of the decoder on the byte at `pos`: the next cursor and
/// stack, or the error that ends decoding.
pub open spec fn step(buf: Seq<u8>, pos: int, stack: Seq<Frame>) -> Result<
    (int, Seq<Frame>),
    DecodeError,
> {
    let c = buf[pos];
    if c == INT_START {
        match int_spec(buf, pos) {
            Ok((n, used)) => Ok((pos + used, push_item(stack, Val::Int(n)))),
            Err(e) => Err(e),
        }
    } else if is_digit(c) {
        match bytestr_spec(buf, pos) {
            Ok((b, used)) => Ok((pos + used, push_item(stack, Val::Bytes(b)))),
            Err(e) => Err(e),
        }
    } else if c == LIST_START {
        Ok((pos + 1, stack.push(Frame { kind: ScopeType::List, items: Seq::empty() })))
    } else if c == DICT_START {
        Ok((pos + 1, stack.push(Frame { kind: ScopeType::Dict, items: Seq::empty() })))
    } else if c == END {
        let top = stack.last();
        let rest = stack.drop_last();
        match top.kind {
            ScopeType::Root => Err(DecodeError::InvalidEndToken(pos as usize)),
            ScopeType::List => Ok((pos + 1, push_item(rest, Val::List(top.items)))),
            ScopeType::Dict => if dict_items_ok(top.items) {
                Ok((pos + 1, push_item(rest, Val::Dict(dict_of(top.items)))))
            } else {
                Err(DecodeError::InvalidDict(pos as usize))
            },
        }
    } else {
        Err(DecodeError::InvalidToken(pos as usize, c as char))
    }
}

/// Runs the decoder from cursor `pos` and `stack` to the end of the buffer.
pub open spec fn run(buf: Seq<u8>, pos: int, stack: Seq<Frame>) -> Result<Seq<Val>, DecodeError>
    decreases buf.len() - pos,
    via run_decreases
{
    if 0 <= pos < buf.len() {
        match step(buf, pos, stack) {
            Ok((next, s)) => run(buf, next, s),
            Err(e) => Err(e),
        }
    } else if stack.len() > 1 {
        Err(DecodeError::NoEndToken(pos as usize))
    } else {
        Ok(stack.last().items)
    }
}

/// The stack the decoder starts with: the root scope, empty.
pub open spec fn initial_stack() -> Seq<Frame> {
    seq![Frame { kind: ScopeType::Root, items: Seq::empty() }]
}

/// What decoding `buf` yields: the top-level values, or the first error.
pub open spec fn decode_spec(buf: Seq<u8>) -> Result<Seq<Val>, DecodeError> {
    run(buf, 0, initial_stack())
}

/// What `decode` promises of its result `r` on `buf`.
pub open spec fn decode_post(buf: Seq<u8>, r: Result<Vec<BencodeValue>, DecodeError>) -> bool {
    match r {
        Ok(vs) => decode_spec(buf) == Ok::<Seq<Val>, DecodeError>(models(vs@)),
        Err(e) => decode_spec(buf) == Err::<Seq<Val>, DecodeError>(e),
    }
}

proof fn lemma_int_scan_extent(buf: Seq<u8>, start: int, pos: int, neg: bool, digits: nat, val: int)
    requires
        start < pos,
    ensures
        int_scan(buf, start, pos, neg, digits, val) matches Ok((_, n)) ==> 2 <= n && start + n
            <= buf.len(),
    decreases buf.len() - pos,
{
    if 0 <= pos < buf.len() {
        let c = buf[pos];
        let next = if neg {
            val * 10 - (c - DIGIT_ZERO)
        } else {
            val * 10 + (c - DIGIT_ZERO)
        };
        lemma_int_scan_extent(buf, start, pos + 1, true, digits, val);
        lemma_int_scan_extent(buf, start, pos + 1, neg, digits + 1, next);
    }
}

proof fn lemma_bytestr_scan_extent(buf: Seq<u8>, start: int, pos: int, digits: nat, len: nat)
    requires
        start <= pos,
    ensures
        bytestr_scan(buf, start, pos, digits, len) matches Ok((_, n)) ==> 1 <= n && start + n
            <= buf.len(),
    decreases buf.len() - pos,
{
    if 0 <= pos < buf.len() {
        let c = buf[pos];
        lemma_bytestr_scan_extent(buf, start, pos + 1, digits + 1, (len * 10 + (c - DIGIT_ZERO)) as nat);
    }
}

pub(crate) proof fn lemma_step_advances(buf: Seq<u8>, pos: int, stack: Seq<Frame>)
    requires
        0 <= pos < buf.len(),
    ensures
        step(buf, pos, stack) matches Ok((next, _)) ==> pos < next <= buf.len(),
{
    lemma_int_scan_extent(buf, pos, pos + 1, false, 0, 0);
    lemma_bytestr_scan_extent(buf, pos, pos, 0, 0);
}

#[via_fn]
proof fn run_decreases(buf: Seq<u8>, pos: int, stack: Seq<Frame>) {
    if 0 <= pos < buf.len() {
        lemma_step_advances(buf, pos, stack);
    }
}

/// An open scope while decoding.
struct Scope {
    stype: ScopeType,
    items: Vec<BencodeValue>,
}

spec fn frame_of(s: Scope) -> Frame {
    Frame { kind: s.stype, items: models(s.items@) }
}

spec fn frames_of(s: Seq<Scope>) -> Seq<Frame> {
    Seq::new(s.len(), |i: int| frame_of(s[i]))
}

/// The root scope is at the bottom of the stack and nowhere else.
spec fn stack_wf(s: Seq<Scope>) -> bool {
    &&& s.len() >= 1
    &&& s[0].stype == ScopeType::Root
    &&& forall|j: int| 1 <= j < s.len() ==> (#[trigger] s[j]).stype != ScopeType::Root
}

proof fn lemma_empty_models(v: Vec<BencodeValue>)
    requires
        v@.len() == 0,
    ensures
        models(v@) == Seq::<Val>::empty(),
{
    assert(models(v@) =~= Seq::<Val>::empty());
}

/// Appends `v` to the items of the top scope.
fn push_value(stack: &mut Vec<Scope>, v: BencodeValue)
    requires
        old(stack).len() >= 1,
    ensures
        frames_of(final(stack)@) == push_item(frames_of(old(stack)@), v@),
        final(stack)@.len() == old(stack)@.len(),
        forall|j: int|
            0 <= j < old(stack)@.len() ==> (#[trigger] final(stack)@[j]).stype == old(
                stack,
            )@[j].stype,
{
    let ghost vm = v@;
    let mut top = stack.pop().unwrap();
    let ghost before = top.items@;
    top.items.push(v);
    assert(models(top.items@) =~= models(before).push(vm));
    stack.push(top);
    assert(frames_of(stack@) =~= push_item(frames_of(old(stack)@), vm));
}

/// Folds the items of a closed dictionary scope, alternately keys and
/// values, into a dictionary; `pos` is the offset of the closing `e`.
fn fold_dict(items: Vec<BencodeValue>, pos: usize) -> (r: Result<BencodeValue, DecodeError>)
    ensures
        match r {
            Ok(v) => dict_items_ok(models(items@)) && v@ == Val::Dict(dict_of(models(items@))),
            Err(e) => !dict_items_ok(models(items@)) && e == DecodeError::InvalidDict(pos),
        },
{
    let ghost orig = items@;
    let n0 = items.len();
    if n0 % 2 != 0 {
        return Err(DecodeError::InvalidDict(pos));
    }
    let mut pending = items;
    // Reversed, so that popping hands the items out in their order.
    let mut rev: Vec<BencodeValue> = Vec::new();
    while pending.len() > 0
        invariant
            n0 == orig.len(),
            orig == items@,
            pending@ == orig.take(pending.len() as int),
            rev.len() + pending.len() == n0,
            forall|j: int| 0 <= j < rev.len() ==> #[trigger] rev@[j] == orig[n0 - 1 - j],
        decreases pending.len(),
    {
        let x = pending.pop().unwrap();
        rev.push(x);
        assert(pending@ =~= orig.take(pending.len() as int));
    }
    let mut entries: Vec<(Vec<u8>, BencodeValue)> = Vec::new();
    let mut done: usize = 0;
    assert(entry_models(entries@) =~= dict_of(models(orig.take(0))));
    while rev.len() > 0
        invariant
            n0 == orig.len(),
            orig == items@,
            n0 % 2 == 0,
            done % 2 == 0,
            rev.len() + done == n0,
            forall|j: int| 0 <= j < rev.len() ==> #[trigger] rev@[j] == orig[n0 - 1 - j],
            entry_models(entries@) == dict_of(models(orig.take(done as int))),
            forall|j: int| 0 <= j < done && j % 2 == 0 ==> #[trigger] orig[j]@ is Bytes,
        decreases rev.len(),
    {
        let key = rev.pop().unwrap();
        let val = rev.pop().unwrap();
        assert(key == orig[done as int]);
        assert(val == orig[done + 1]);
        match key {
            BencodeValue::ByteStr(k) => {
                let ghost taken = models(orig.take(done + 2));
                assert(taken.subrange(0, done as int) =~= models(orig.take(done as int)));
                assert(taken[done as int] == Val::Bytes(k@));
                dict_insert(&mut entries, k, val);
                proof {
                    assert forall|j: int| 0 <= j < done + 2 && j % 2 == 0 implies #[trigger] orig[j]@ is Bytes by {
                        if j == done {
                            assert(orig[j] == BencodeValue::ByteStr(k));
                        }
                    }
                }
            },
            _ => {
                assert(!(models(orig)[done as int] is Bytes));
                return Err(DecodeError::InvalidDict(pos));
            },
        }
        done = done + 2;
    }
    proof {
        assert(orig.take(done as int) =~= orig);
        lemma_dict_model(entries);
        assert forall|j: int| 0 <= j < models(orig).len() && j % 2 == 0 implies #[trigger] models(orig)[j] is Bytes by {
            assert(orig[j]@ is Bytes);
        }
    }
    Ok(BencodeValue::Dict(entries))
}

/// Decodes every value in `buf`, in order, or reports the first error.
pub fn decode(buf: &[u8]) -> (r: Result<Vec<BencodeValue>, DecodeError>)
    ensures
        decode_post(buf@, r),
{
    let mut stack: Vec<Scope> = Vec::new();
    let root = Scope { stype: ScopeType::Root, items: Vec::new() };
    proof {
        lemma_empty_models(root.items);
    }
    stack.push(root);
    assert(frames_of(stack@) =~= initial_stack());
    let mut pos: usize = 0;
    while pos < buf.len()
        invariant
            pos <= buf.len(),
            stack_wf(stack@),
            run(buf@, pos as int, frames_of(stack@)) == decode_spec(buf@),
        decreases buf.len() - pos,
    {
        let ghost frames = frames_of(stack@);
        proof {
            lemma_step_advances(buf@, pos as int, frames);
        }
        let c = buf[pos];
        if c == INT_START {
            match decode_int(buf, pos) {
                Ok((n, used)) => {
                    push_value(&mut stack, BencodeValue::Int(n));
                    pos = pos + used;
                },
                Err(e) => {
                    return Err(e);
                },
            }
        } else if DIGIT_ZERO <= c && c <= DIGIT_NINE {
            match decode_bytestr(buf, pos) {
                Ok((b, used)) => {
                    push_value(&mut stack, BencodeValue::ByteStr(b));
                    pos = pos + used;
                },
                Err(e) => {
                    return Err(e);
                },
            }
        } else if c == LIST_START || c == DICT_START {
            let stype = if c == LIST_START {
                ScopeType::List
            } else {
                ScopeType::Dict
            };
            let scope = Scope { stype, items: Vec::new() };
            proof {
                lemma_empty_models(scope.items);
            }
            stack.push(scope);
            assert(frames_of(stack@) =~= frames.push(Frame { kind: stype, items: Seq::empty() }));
            pos = pos + 1;
        } else if c == END {
            let top = stack.pop().unwrap();
            assert(frames_of(stack@) =~= frames.drop_last());
            match top.stype {
                ScopeType::Root => {
                    return Err(DecodeError::InvalidEndToken(pos));
                },
                ScopeType::List => {
                    proof {
                        lemma_list_model(top.items);
                    }
                    push_value(&mut stack, BencodeValue::List(top.items));
                },
                ScopeType::Dict => {
                    match fold_dict(top.items, pos) {
                        Ok(v) => {
                            push_value(&mut stack, v);
                        },
                        Err(e) => {
                            return Err(e);
                        },
                    }
                },
            }
            pos = pos + 1;
        } else {
            return Err(DecodeError::InvalidToken(pos, c as char));
        }
    }
    if stack.len() > 1 {
        return Err(DecodeError::NoEndToken(pos));
    }
    let root = stack.pop().unwrap();
    Ok(root.items)
}

} // verus!
