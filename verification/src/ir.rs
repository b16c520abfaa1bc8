//! The instruction tree that is optimized and run.

use vstd::prelude::*;
use crate::ast;
use crate::machine::{initial, run, verdict, Fault, Machine};
use crate::model::{
    coalesce, convert, convert_all, counter_gain, emitted, fits, flush, instr_fits,
    is_multiply_loop, is_offset, is_simple, lemma_convert_all, lemma_counter_gain_push,
    lemma_flush_fits, lemma_net_shift_push, lemma_pending_push, lemma_rebased_fits,
    lemma_scaled_body_push, lemma_scaled_body_starts, lower, lower_all, net_shift, optimizable,
    optimize, pending, rebased, scaled_body, Instr,
};

verus! {

/// One instruction. Every offset is relative to the pointer at the moment the
/// instruction is reached.
#[derive(Debug, PartialEq, Eq)]
pub enum Node {
    /// `while p[0] != 0 { body }`
    Loop(Vec<Node>),
    /// `Move(d)`: `p += d`
    Move(isize),
    /// `AddConst(o, a)`: `p[o] += a`
    AddConst(isize, i32),
    /// `AddMult(o, m, a)`: `p[o] += p[m] * a`
    AddMult(isize, isize, i32),
    /// `Zero(o)`: `p[o] = 0`
    Zero(isize),
    /// `Output(o)`: write `p[o]`
    Output(isize),
    /// `Input(o)`: read a byte into `p[o]`
    Input(isize),
}

/// A whole program: its instructions in order.
#[derive(Debug, PartialEq, Eq)]
pub struct Program(pub Vec<Node>);

/// The instruction that a node stands for.
pub open spec fn lift(n: Node) -> Instr
    decreases n,
{
    match n {
        Node::Loop(body) => Instr::Loop(lift_all(body@)),
        Node::Move(d) => Instr::Shift(d as int),
        Node::AddConst(o, a) => Instr::AddConst(o as int, a as int),
        Node::AddMult(o, m, a) => Instr::AddMult(o as int, m as int, a as int),
        Node::Zero(o) => Instr::Zero(o as int),
        Node::Output(o) => Instr::Output(o as int),
        Node::Input(o) => Instr::Input(o as int),
    }
}

/// The instructions that a sequence of nodes stands for.
pub open spec fn lift_all(ns: Seq<Node>) -> Seq<Instr>
    decreases ns,
{
    if ns.len() == 0 {
        Seq::empty()
    } else {
        lift_all(ns.drop_last()).push(lift(ns.last()))
    }
}

impl View for Node {
    type V = Instr;

    open spec fn view(&self) -> Instr {
        lift(*self)
    }
}

impl View for Program {
    type V = Seq<Instr>;

    open spec fn view(&self) -> Seq<Instr> {
        lift_all(self.0@)
    }
}

/// `lift_all` works node by node.
pub proof fn lemma_lift_all(ns: Seq<Node>)
    ensures
        lift_all(ns).len() == ns.len(),
        forall|k: int| 0 <= k < ns.len() ==> #[trigger] lift_all(ns)[k] == lift(ns[k]),
    decreases ns.len(),
{
    if ns.len() > 0 {
        lemma_lift_all(ns.drop_last());
    }
}

/// `lift_all` of a sequence and one more node.
pub proof fn lemma_lift_all_push(ns: Seq<Node>, n: Node)
    ensures
        lift_all(ns.push(n)) == lift_all(ns).push(lift(n)),
{
    assert(ns.push(n).drop_last() == ns);
}

/// `lift_all` of the first `k + 1` nodes is that of the first `k`, and one more.
pub proof fn lemma_lift_all_take(ns: Seq<Node>, k: int)
    requires
        0 <= k < ns.len(),
    ensures
        lift_all(ns.take(k + 1)) == lift_all(ns.take(k)).push(lift(ns[k])),
{
    assert(ns.take(k + 1).drop_last() == ns.take(k));
}

/// What a tree of nodes stands for always fits a tree of nodes.
pub proof fn lemma_lift_fits(n: Node)
    ensures
        instr_fits(lift(n)),
    decreases n,
{
    match n {
        Node::Loop(body) => {
            lemma_lift_all_fits(body@);
        },
        _ => {},
    }
}

/// What a sequence of nodes stands for always fits a sequence of nodes.
pub proof fn lemma_lift_all_fits(ns: Seq<Node>)
    ensures
        fits(lift_all(ns)),
    decreases ns,
{
    lemma_lift_all(ns);
    assert forall|k: int| 0 <= k < lift_all(ns).len() implies instr_fits(
        #[trigger] lift_all(ns)[k],
    ) by {
        lemma_lift_fits(ns[k]);
    }
}

/// The amount as a byte: the least number, from zero on, that differs from it
/// by a multiple of 256.
pub fn low_byte(a: i32) -> (b: u8)
    ensures
        b == (a as int) % 256,
{
    if a >= 0 {
        (a % 256) as u8
    } else {
        let below: i32 = -(a + 1);
        255 - (below % 256) as u8
    }
}

/// Whether the body holds nothing but `Move` and `AddConst`.
fn is_simple_loop(ns: &Vec<Node>) -> (r: bool)
    ensures
        r == is_simple(lift_all(ns@)),
{
    proof {
        lemma_lift_all(ns@);
    }
    let mut k: usize = 0;
    while k < ns.len()
        invariant
            k <= ns.len(),
            lift_all(ns@).len() == ns.len(),
            forall|j: int| 0 <= j < ns.len() ==> #[trigger] lift_all(ns@)[j] == lift(ns[j]),
            forall|j: int|
                0 <= j < k ==> (#[trigger] lift_all(ns@)[j] is Shift || lift_all(
                    ns@,
                )[j] is AddConst),
        decreases ns.len() - k,
    {
        match &ns[k] {
            Node::Move(_) => {},
            Node::AddConst(_, _) => {},
            _ => {
                assert(!(lift_all(ns@)[k as int] is Shift || lift_all(ns@)[k as int] is AddConst));
                return false;
            },
        }
        k += 1;
    }
    true
}

/// The sum of the distances of the `Move`s that stand directly in the body.
fn net_move(ns: &Vec<Node>) -> (r: i128)
    ensures
        r == net_shift(lift_all(ns@)),
{
    let mut r: i128 = 0;
    let mut k: usize = 0;
    while k < ns.len()
        invariant
            k <= ns.len(),
            r == net_shift(lift_all(ns@.take(k as int))),
            -(k as int) * 0x8000_0000_0000_0000 <= r <= (k as int) * 0x8000_0000_0000_0000,
        decreases ns.len() - k,
    {
        proof {
            lemma_lift_all_take(ns@, k as int);
            lemma_net_shift_push(lift_all(ns@.take(k as int)), lift(ns[k as int]));
        }
        match &ns[k] {
            Node::Move(d) => {
                r = r + (*d as i128);
            },
            _ => {},
        }
        k += 1;
    }
    assert(ns@.take(k as int) == ns@);
    r
}

/// What one pass over the body adds to the cell from which it started, as a byte.
fn net_zero_inc(ns: &Vec<Node>) -> (r: u8)
    ensures
        r == counter_gain(lift_all(ns@)) % 256,
{
    let mut at: i128 = 0;
    let mut r: u8 = 0;
    let mut k: usize = 0;
    while k < ns.len()
        invariant
            k <= ns.len(),
            at == net_shift(lift_all(ns@.take(k as int))),
            -(k as int) * 0x8000_0000_0000_0000 <= at <= (k as int) * 0x8000_0000_0000_0000,
            r == counter_gain(lift_all(ns@.take(k as int))) % 256,
        decreases ns.len() - k,
    {
        let ghost before = lift_all(ns@.take(k as int));
        proof {
            lemma_lift_all_take(ns@, k as int);
            lemma_net_shift_push(before, lift(ns[k as int]));
            lemma_counter_gain_push(before, lift(ns[k as int]));
        }
        match &ns[k] {
            Node::Move(d) => {
                at = at + (*d as i128);
            },
            Node::AddConst(o, a) => {
                if at + (*o as i128) == 0 {
                    let b = low_byte(*a);
                    let sum: u16 = (r as u16 + b as u16) % 256;
                    proof {
                        vstd::arithmetic::div_mod::lemma_add_mod_noop(
                            counter_gain(before),
                            *a as int,
                            256,
                        );
                    }
                    r = sum as u8;
                }
            },
            _ => {},
        }
        k += 1;
    }
    assert(ns@.take(k as int) == ns@);
    r
}

/// Whether `v` can be held in an offset.
fn offset_of(v: i128) -> (res: Option<isize>)
    ensures
        match res {
            Some(o) => o == v,
            None => !is_offset(v as int),
        },
{
    if v < isize::MIN as i128 || v > isize::MAX as i128 {
        None
    } else {
        Some(v as isize)
    }
}

/// The body of a multiply loop, converted, where that fits.
fn scale_body(ns: &Vec<Node>) -> (res: Option<Vec<Node>>)
    requires
        is_simple(lift_all(ns@)),
    ensures
        res is Some <==> fits(scaled_body(lift_all(ns@))),
        res is Some ==> lift_all(res->Some_0@) == scaled_body(lift_all(ns@)),
{
    let ghost whole = scaled_body(lift_all(ns@));
    let mut res: Vec<Node> = Vec::new();
    let mut at: i128 = 0;
    let mut k: usize = 0;
    while k < ns.len()
        invariant
            k <= ns.len(),
            whole == scaled_body(lift_all(ns@)),
            at == net_shift(lift_all(ns@.take(k as int))),
            -(k as int) * 0x8000_0000_0000_0000 <= at <= (k as int) * 0x8000_0000_0000_0000,
            lift_all(res@) == scaled_body(lift_all(ns@.take(k as int))),
        decreases ns.len() - k,
    {
        let ghost before = lift_all(ns@.take(k as int));
        proof {
            lemma_lift_all_take(ns@, k as int);
            lemma_net_shift_push(before, lift(ns[k as int]));
            lemma_scaled_body_push(before, lift(ns[k as int]));
            lemma_lift_all(ns@);
            lemma_lift_all(ns@.take(k as int + 1));
            assert(lift_all(ns@).take(k as int + 1) == lift_all(ns@.take(k as int + 1)));
            lemma_scaled_body_starts(lift_all(ns@), k as int + 1);
        }
        match &ns[k] {
            Node::Move(d) => {
                let n = Node::Move(*d);
                proof {
                    lemma_lift_all_push(res@, n);
                    assert(lift_all(res@).push(lift(n)) == lift_all(res@) + seq![lift(n)]);
                }
                res.push(n);
                at = at + (*d as i128);
            },
            Node::AddConst(o, a) => {
                if at + (*o as i128) != 0 {
                    proof {
                        let j = scaled_body(before).len() as int;
                        let now = scaled_body(lift_all(ns@.take(k as int + 1)));
                        assert(now[j] == Instr::AddMult(*o as int, -(at as int), *a as int));
                        assert(whole[j] == now[j]);
                    }
                    match offset_of(-at) {
                        None => {
                            return None;
                        },
                        Some(m) => {
                            let n = Node::AddMult(*o, m, *a);
                            proof {
                                lemma_lift_all_push(res@, n);
                                assert(lift_all(res@).push(lift(n)) == lift_all(res@) + seq![
                                    lift(n),
                                ]);
                            }
                            res.push(n);
                        },
                    }
                } else {
                    assert(scaled_body(before) + Seq::<Instr>::empty() == scaled_body(before));
                }
            },
            _ => {
                assert(scaled_body(before) + Seq::<Instr>::empty() == scaled_body(before));
            },
        }
        k += 1;
    }
    proof {
        assert(ns@.take(k as int) == ns@);
        lemma_lift_all_fits(res@);
    }
    Some(res)
}

/// Each node of the sequence, converted, where that fits.
fn convert_each(ns: &Vec<Node>) -> (res: Option<Vec<Node>>)
    ensures
        res is Some <==> fits(convert_all(lift_all(ns@))),
        res is Some ==> lift_all(res->Some_0@) == convert_all(lift_all(ns@)),
    decreases ns,
{
    let mut res: Vec<Node> = Vec::new();
    let mut k: usize = 0;
    proof {
        lemma_lift_all(ns@);
        lemma_convert_all(lift_all(ns@));
    }
    while k < ns.len()
        invariant
            k <= ns.len(),
            lift_all(ns@).len() == ns.len(),
            convert_all(lift_all(ns@)).len() == ns.len(),
            forall|j: int| 0 <= j < ns.len() ==> #[trigger] lift_all(ns@)[j] == lift(ns[j]),
            forall|j: int|
                0 <= j < ns.len() ==> #[trigger] convert_all(lift_all(ns@))[j] == convert(
                    lift_all(ns@)[j],
                ),
            lift_all(res@) == convert_all(lift_all(ns@.take(k as int))),
        decreases ns.len() - k,
    {
        match ns[k].try_convert() {
            None => {
                assert(!instr_fits(convert_all(lift_all(ns@))[k as int]));
                return None;
            },
            Some(n) => {
                proof {
                    lemma_lift_all_take(ns@, k as int);
                    assert(lift_all(ns@.take(k as int)).push(lift(ns[k as int])).drop_last()
                        == lift_all(ns@.take(k as int)));
                    lemma_lift_all_push(res@, n);
                }
                res.push(n);
            },
        }
        k += 1;
    }
    proof {
        assert(ns@.take(k as int) == ns@);
        lemma_lift_all_fits(res@);
    }
    Some(res)
}

/// The sequence with its movements folded into the offsets that follow
/// them, where that fits.
fn coalesce_nodes(ns: &Vec<Node>) -> (res: Option<Vec<Node>>)
    ensures
        res is Some <==> fits(coalesce(lift_all(ns@))),
        res is Some ==> lift_all(res->Some_0@) == coalesce(lift_all(ns@)),
    decreases ns,
{
    let ghost whole = lift_all(ns@);
    let mut res: Vec<Node> = Vec::new();
    let mut r: i128 = 0;
    let mut k: usize = 0;
    proof {
        lemma_lift_all(ns@);
    }
    while k < ns.len()
        invariant
            k <= ns.len(),
            whole == lift_all(ns@),
            whole.len() == ns.len(),
            forall|j: int| 0 <= j < ns.len() ==> #[trigger] whole[j] == lift(ns[j]),
            r == pending(whole.take(k as int)),
            -(k as int) * 0x8000_0000_0000_0000 <= r <= (k as int) * 0x8000_0000_0000_0000,
            lift_all(res@) == emitted(whole.take(k as int)),
        decreases ns.len() - k,
    {
        let ghost before = whole.take(k as int);
        let ghost piece = rebased(whole[k as int], r as int);
        proof {
            if fits(coalesce(whole)) {
                lemma_rebased_fits(whole, k as int);
            }
            assert(whole.take(k as int + 1).drop_last() == before);
            assert(whole.take(k as int + 1) == before.push(whole[k as int]));
            lemma_pending_push(before, whole[k as int]);
            assert(whole[k as int] == lift(ns[k as int]));
        }
        match &ns[k] {
            Node::Loop(body) => {
                assert(piece == flush(r as int).push(Instr::Loop(coalesce(lift_all(body@)))));
                if r != 0 {
                    assert(piece[0] == Instr::Shift(r as int));
                    assert(piece[1] == Instr::Loop(coalesce(lift_all(body@))));
                    match offset_of(r) {
                        None => {
                            return None;
                        },
                        Some(d) => {
                            let shift = Node::Move(d);
                            proof {
                                lemma_lift_all_push(res@, shift);
                            }
                            res.push(shift);
                        },
                    }
                } else {
                    assert(piece[0] == Instr::Loop(coalesce(lift_all(body@))));
                }
                match coalesce_nodes(body) {
                    None => {
                        return None;
                    },
                    Some(inner) => {
                        let n = Node::Loop(inner);
                        proof {
                            lemma_lift_all_push(res@, n);
                        }
                        res.push(n);
                    },
                }
                r = 0;
            },
            Node::Move(d) => {
                r = r + (*d as i128);
            },
            Node::AddConst(o, a) => {
                assert(piece[0] == Instr::AddConst(*o + r, *a as int));
                match offset_of(*o as i128 + r) {
                    None => {
                        return None;
                    },
                    Some(at) => {
                        let n = Node::AddConst(at, *a);
                        proof {
                            lemma_lift_all_push(res@, n);
                        }
                        res.push(n);
                    },
                }
            },
            Node::AddMult(o, m, a) => {
                assert(piece[0] == Instr::AddMult(*o + r, *m + r, *a as int));
                match offset_of(*o as i128 + r) {
                    None => {
                        return None;
                    },
                    Some(at) => {
                        match offset_of(*m as i128 + r) {
                            None => {
                                return None;
                            },
                            Some(from) => {
                                let n = Node::AddMult(at, from, *a);
                                proof {
                                    lemma_lift_all_push(res@, n);
                                }
                                res.push(n);
                            },
                        }
                    },
                }
            },
            Node::Zero(o) => {
                assert(piece[0] == Instr::Zero(*o + r));
                match offset_of(*o as i128 + r) {
                    None => {
                        return None;
                    },
                    Some(at) => {
                        let n = Node::Zero(at);
                        proof {
                            lemma_lift_all_push(res@, n);
                        }
                        res.push(n);
                    },
                }
            },
            Node::Output(o) => {
                assert(piece[0] == Instr::Output(*o + r));
                match offset_of(*o as i128 + r) {
                    None => {
                        return None;
                    },
                    Some(at) => {
                        let n = Node::Output(at);
                        proof {
                            lemma_lift_all_push(res@, n);
                        }
                        res.push(n);
                    },
                }
            },
            Node::Input(o) => {
                assert(piece[0] == Instr::Input(*o + r));
                match offset_of(*o as i128 + r) {
                    None => {
                        return None;
                    },
                    Some(at) => {
                        let n = Node::Input(at);
                        proof {
                            lemma_lift_all_push(res@, n);
                        }
                        res.push(n);
                    },
                }
            },
        }
        k += 1;
        assert(lift_all(res@) == emitted(before) + piece);
    }
    proof {
        assert(whole.take(k as int) == whole);
        if fits(coalesce(whole)) {
            lemma_flush_fits(whole);
        }
    }
    if r != 0 {
        assert(flush(r as int)[0] == Instr::Shift(r as int));
        match offset_of(r) {
            None => {
                return None;
            },
            Some(d) => {
                let shift = Node::Move(d);
                proof {
                    lemma_lift_all_push(res@, shift);
                }
                res.push(shift);
            },
        }
    }
    proof {
        assert(lift_all(res@) == emitted(whole) + flush(r as int));
        lemma_lift_all_fits(res@);
    }
    Some(res)
}

/// Each node of the sequence, lowered.
fn lower_each(ns: &Vec<ast::Node>) -> (res: Vec<Node>)
    ensures
        lift_all(res@) == lower_all(ast::lift_all(ns@)),
    decreases ns,
{
    let mut res: Vec<Node> = Vec::new();
    let mut k: usize = 0;
    while k < ns.len()
        invariant
            k <= ns.len(),
            lift_all(res@) == lower_all(ast::lift_all(ns@.take(k as int))),
        decreases ns.len() - k,
    {
        let n = Node::from_ast_node(&ns[k]);
        proof {
            assert(ns@.take(k as int + 1) == ns@.take(k as int).push(ns[k as int]));
            ast::lemma_lift_all_push(ns@.take(k as int), ns[k as int]);
            assert(ast::lift_all(ns@.take(k as int)).push(ast::lift(ns[k as int])).drop_last()
                == ast::lift_all(ns@.take(k as int)));
            lemma_lift_all_push(res@, n);
        }
        res.push(n);
        k += 1;
    }
    assert(ns@.take(k as int) == ns@);
    res
}

impl Program {
    /// The instruction tree of a syntax tree: lowered and, where `opt` is
    /// set, optimized by both passes.
    ///
    /// With `opt` set, what each pass gives must fit.
    pub fn from_ast(a: &ast::Program, opt: bool) -> (res: Self)
        requires
            opt ==> optimizable(lower_all(a@)),
        ensures
            res@ == if opt {
                optimize(lower_all(a@))
            } else {
                lower_all(a@)
            },
    {
        let mut p = Program(lower_each(&a.0));
        if opt {
            p.opt_multiply();
            p.opt_moves();
        }
        p
    }

    /// Multiply-loop conversion of every loop of the program.
    ///
    /// The converted program must fit: a multiply-accumulate names the
    /// counter cell by the negated distance from it.
    pub fn opt_multiply(&mut self)
        requires
            fits(convert_all(old(self)@)),
        ensures
            final(self)@ == convert_all(old(self)@),
    {
        self.0 = convert_each(&self.0).unwrap();
    }

    /// Move coalescing of the program and of every loop body in it.
    ///
    /// The coalesced program must fit: its offsets are sums of offsets and
    /// movements of this one.
    pub fn opt_moves(&mut self)
        requires
            fits(coalesce(old(self)@)),
        ensures
            final(self)@ == coalesce(old(self)@),
    {
        self.0 = coalesce_nodes(&self.0).unwrap();
    }

    /// The program optimized by both passes, or `None` where what one of
    /// them gives does not fit.
    pub fn optimized(&self) -> (res: Option<Program>)
        ensures
            res is Some <==> optimizable(self@),
            res is Some ==> res->Some_0@ == optimize(self@),
    {
        match convert_each(&self.0) {
            None => None,
            Some(converted) => match coalesce_nodes(&converted) {
                None => None,
                Some(ns) => Some(Program(ns)),
            },
        }
    }

    /// Runs the program on a fresh machine that reads `input`, within
    /// `limit` loop passes, and puts what it writes at the end of `output`.
    pub fn execute_within(&self, input: &[u8], output: &mut Vec<u8>, limit: u64) -> (res: Result<
        (),
        Fault,
    >)
        ensures
            res == verdict(run(self@, initial(input@, limit as nat))),
            final(output)@ == old(output)@ + run(self@, initial(input@, limit as nat)).state.output,
    {
        let mut m = Machine::new(input, limit);
        let res = m.run(&self.0);
        let mut written = m.into_output();
        output.append(&mut written);
        res
    }

    /// Runs the program on a fresh machine that reads `input`, and puts what
    /// it writes at the end of `output`. The run may take as many loop passes
    /// as a `u64` can count.
    pub fn execute(&self, input: &[u8], output: &mut Vec<u8>) -> (res: Result<(), Fault>)
        ensures
            res == verdict(run(self@, initial(input@, u64::MAX as nat))),
            final(output)@ == old(output)@ + run(
                self@,
                initial(input@, u64::MAX as nat),
            ).state.output,
    {
        self.execute_within(input, output, u64::MAX)
    }
}

impl Node {
    /// Whether this is a loop that counts one cell down to zero while it adds
    /// multiples of that cell to others.
    pub fn is_multiply_loop(&self) -> (r: bool)
        ensures
            r == is_multiply_loop(self@),
    {
        match self {
            Node::Loop(ns) => is_simple_loop(ns) && net_move(ns) == 0 && net_zero_inc(ns) == 255,
            _ => false,
        }
    }

    /// Multiply-loop conversion of this node, and of every loop below it.
    ///
    /// The converted tree must fit: a multiply-accumulate names the counter
    /// cell by the negated distance from it.
    pub fn convert_multiply_loop(&self) -> (res: Node)
        requires
            instr_fits(convert(self@)),
        ensures
            res@ == convert(self@),
    {
        self.try_convert().unwrap()
    }

    /// Multiply-loop conversion of this node, and of every loop below it, or
    /// `None` where the converted tree does not fit.
    pub fn try_convert(&self) -> (res: Option<Node>)
        ensures
            res is Some <==> instr_fits(convert(self@)),
            res is Some ==> res->Some_0@ == convert(self@),
        decreases self,
    {
        match self {
            Node::Loop(ns) => {
                if self.is_multiply_loop() {
                    let ghost body = scaled_body(lift_all(ns@));
                    let ghost whole = body.push(Instr::Zero(0));
                    proof {
                        assert(convert(self@) == Instr::Loop(whole));
                        if fits(whole) {
                            assert forall|k: int| 0 <= k < body.len() implies instr_fits(
                                #[trigger] body[k],
                            ) by {
                                assert(instr_fits(whole[k]));
                            }
                        }
                        if fits(body) {
                            assert forall|k: int| 0 <= k < whole.len() implies instr_fits(
                                #[trigger] whole[k],
                            ) by {
                                if k < body.len() {
                                    assert(instr_fits(body[k]));
                                }
                            }
                        }
                    }
                    match scale_body(ns) {
                        None => None,
                        Some(mut scaled) => {
                            let zero = Node::Zero(0);
                            proof {
                                lemma_lift_all_push(scaled@, zero);
                            }
                            scaled.push(zero);
                            Some(Node::Loop(scaled))
                        },
                    }
                } else {
                    proof {
                        let whole = convert_all(lift_all(ns@));
                        assert(convert(self@) == Instr::Loop(whole));
                    }
                    match convert_each(ns) {
                        None => None,
                        Some(body) => Some(Node::Loop(body)),
                    }
                }
            },
            Node::Move(d) => Some(Node::Move(*d)),
            Node::AddConst(o, a) => Some(Node::AddConst(*o, *a)),
            Node::AddMult(o, m, a) => Some(Node::AddMult(*o, *m, *a)),
            Node::Zero(o) => Some(Node::Zero(*o)),
            Node::Output(o) => Some(Node::Output(*o)),
            Node::Input(o) => Some(Node::Input(*o)),
        }
    }

    /// The instruction of one node of the syntax tree: every offset is zero.
    pub fn from_ast_node(c: &ast::Node) -> (res: Self)
        ensures
            res@ == lower(c@),
        decreases c,
    {
        match c {
            ast::Node::Move(d) => Node::Move(*d),
            ast::Node::Add(a) => Node::AddConst(0, *a),
            ast::Node::Output => Node::Output(0),
            ast::Node::Input => Node::Input(0),
            ast::Node::Loop(ns) => Node::Loop(lower_each(ns)),
        }
    }
}

impl Clone for Node {
    /// A copy that stands for the same instruction.
    fn clone(&self) -> (res: Self)
        ensures
            res@ == self@,
        decreases self,
    {
        match self {
            Node::Loop(body) => Node::Loop(clone_all(body)),
            Node::Move(d) => Node::Move(*d),
            Node::AddConst(o, a) => Node::AddConst(*o, *a),
            Node::AddMult(o, m, a) => Node::AddMult(*o, *m, *a),
            Node::Zero(o) => Node::Zero(*o),
            Node::Output(o) => Node::Output(*o),
            Node::Input(o) => Node::Input(*o),
        }
    }
}

impl Clone for Program {
    /// A copy that stands for the same instructions.
    fn clone(&self) -> (res: Self)
        ensures
            res@ == self@,
    {
        Program(clone_all(&self.0))
    }
}

/// A copy of each node, in order.
fn clone_all(ns: &Vec<Node>) -> (res: Vec<Node>)
    ensures
        lift_all(res@) == lift_all(ns@),
    decreases ns,
{
    let mut res: Vec<Node> = Vec::new();
    let mut k: usize = 0;
    while k < ns.len()
        invariant
            k <= ns.len(),
            res.len() == k,
            lift_all(res@) == lift_all(ns@.take(k as int)),
        decreases ns.len() - k,
    {
        let n = ns[k].clone();
        proof {
            lemma_lift_all_take(ns@, k as int);
            lemma_lift_all_push(res@, n);
        }
        res.push(n);
        k += 1;
    }
    assert(ns@.take(k as int) == ns@);
    res
}

} // verus!
