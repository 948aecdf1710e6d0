use crate::ast::{
    current, digits_text, evaluated, int_text, lemma_sum_range, prod_current, sum, wf, ConstantNode,
    MulNode, Node, RollNode, LIMIT,
};
use vstd::prelude::*;
use vstd::string::*;

verus! {

/// The largest literal that fits a constant.
pub const MAX_LITERAL: u64 = 2147483647;

/// What the parser found missing or wrong at the failing position.
#[derive(Debug, Clone, Copy, PartialEq, Eq, Structural)]
pub enum ErrorKind {
    /// A decimal digit was expected.
    Digit,
    /// A literal does not fit a 32-bit signed integer.
    Overflow,
}

/// A parse failure: the position, counted in characters, and what failed there.
#[derive(Debug, Clone, Copy, PartialEq, Eq, Structural)]
pub struct ParseError {
    pub position: usize,
    pub kind: ErrorKind,
}

/// A parser for dice expressions; it holds no state.
#[derive(Default)]
pub struct Parser;

/// One operand of a product as the grammar reads it: a constant `(a, None)`
/// or a roll of `a` dice with `b` faces `(a, Some(b))`.
pub type Operand = (int, Option<int>);

pub open spec fn is_digit(c: char) -> bool {
    '0' <= c && c <= '9'
}

pub open spec fn digit_value(c: char) -> int {
    (c as u32) as int - ('0' as u32) as int
}

/// The number of digits that follow position `i`.
pub open spec fn digit_run(s: Seq<char>, i: int) -> nat
    decreases s.len() - i,
{
    if 0 <= i < s.len() && is_digit(s[i]) {
        1 + digit_run(s, i + 1)
    } else {
        0
    }
}

/// The value of the digits from `i` up to `j`, read in decimal.
pub open spec fn digits_value(s: Seq<char>, i: int, j: int) -> int
    decreases j - i,
{
    if j <= i {
        0
    } else {
        digits_value(s, i, j - 1) * 10 + digit_value(s[j - 1])
    }
}

pub open spec fn error_at(i: int, kind: ErrorKind) -> ParseError {
    ParseError { position: i as usize, kind }
}

/// `factor := digit+` at position `i`: where it ends and its value.
pub open spec fn factor_spec(s: Seq<char>, i: int) -> Result<(int, int), ParseError> {
    let r = digit_run(s, i);
    if r == 0 {
        Err(error_at(i, ErrorKind::Digit))
    } else if digits_value(s, i, i + r) > MAX_LITERAL {
        Err(error_at(i, ErrorKind::Overflow))
    } else {
        Ok((i + r, digits_value(s, i, i + r)))
    }
}

pub open spec fn is_roll_operator(c: char) -> bool {
    c == 'd' || c == 'D'
}

/// `roll := factor ("d" | "D") factor | factor` at position `i`: the first
/// alternative is tried first; an overflowing literal ends the parse.
pub open spec fn roll_spec(s: Seq<char>, i: int) -> Result<(int, Operand), ParseError> {
    match factor_spec(s, i) {
        Err(e) => Err(e),
        Ok((j, a)) => {
            if j < s.len() && is_roll_operator(s[j]) {
                match factor_spec(s, j + 1) {
                    Err(e) => if e.kind == ErrorKind::Overflow {
                        Err(e)
                    } else {
                        Ok((j, (a, None)))
                    },
                    Ok((k, b)) => Ok((k, (a, Some(b)))),
                }
            } else {
                Ok((j, (a, None)))
            }
        },
    }
}

/// Puts `first` in front of the operands of a successful parse.
pub open spec fn prepend(
    first: Seq<Operand>,
    r: Result<(int, Seq<Operand>), ParseError>,
) -> Result<(int, Seq<Operand>), ParseError> {
    match r {
        Ok((e, rest)) => Ok((e, first + rest)),
        Err(e) => Err(e),
    }
}

/// `("*" roll)*` after a roll that ended at `j`: a `*` that no roll follows
/// is left unconsumed.
pub open spec fn term_tail(s: Seq<char>, j: int) -> Result<(int, Seq<Operand>), ParseError>
    decreases s.len() - j,
    via term_tail_decreases
{
    if 0 <= j < s.len() && s[j] == '*' {
        match roll_spec(s, j + 1) {
            Err(e) => if e.kind == ErrorKind::Overflow {
                Err(e)
            } else {
                Ok((j, seq![]))
            },
            Ok((k, op)) => prepend(seq![op], term_tail(s, k)),
        }
    } else {
        Ok((j, seq![]))
    }
}

#[via_fn]
proof fn term_tail_decreases(s: Seq<char>, j: int) {
    if 0 <= j < s.len() && s[j] == '*' {
        lemma_roll_advances(s, j + 1);
    }
}

/// `term := roll ("*" roll)*` from the start of `s`.
pub open spec fn term_spec(s: Seq<char>) -> Result<(int, Seq<Operand>), ParseError> {
    match roll_spec(s, 0) {
        Err(e) => Err(e),
        Ok((j, op)) => prepend(seq![op], term_tail(s, j)),
    }
}

/// `n` is the fresh node that the grammar builds for `op`.
pub open spec fn builds(n: Node, op: Operand) -> bool {
    match op.1 {
        None => n == Node::Constant(ConstantNode { value: op.0 as i32 }),
        Some(b) => match n {
            Node::Roll(r) => {
                &&& *r.left == Node::Constant(ConstantNode { value: op.0 as i32 })
                &&& *r.right == Node::Constant(ConstantNode { value: b as i32 })
                &&& r.result is None
            },
            _ => false,
        },
    }
}

/// `n` is the product node that the grammar builds for `ops`.
pub open spec fn builds_product(n: Node, ops: Seq<Operand>) -> bool {
    match n {
        Node::Mul(m) => {
            &&& m.children@.len() == ops.len()
            &&& forall|i: int| 0 <= i < ops.len() ==> builds(#[trigger] m.children@[i], ops[i])
        },
        _ => false,
    }
}

proof fn lemma_roll_advances(s: Seq<char>, i: int)
    ensures
        roll_spec(s, i) is Ok ==> roll_spec(s, i)->Ok_0.0 > i,
        roll_spec(s, i) is Ok ==> roll_spec(s, i)->Ok_0.0 <= s.len(),
{
    lemma_run_in_bounds(s, i);
    lemma_run_in_bounds(s, factor_spec(s, i)->Ok_0.0 + 1);
}

proof fn lemma_run_in_bounds(s: Seq<char>, i: int)
    ensures
        digit_run(s, i) > 0 ==> 0 <= i && i + digit_run(s, i) <= s.len(),
    decreases s.len() - i,
{
    if 0 <= i < s.len() && is_digit(s[i]) {
        lemma_run_in_bounds(s, i + 1);
    }
}


proof fn lemma_run_split(s: Seq<char>, i: int, j: int)
    requires
        0 <= i <= j <= s.len(),
        forall|k: int| i <= k < j ==> is_digit(#[trigger] s[k]),
    ensures
        digit_run(s, i) == (j - i) + digit_run(s, j),
    decreases j - i,
{
    if i < j {
        lemma_run_split(s, i + 1, j);
    }
}

proof fn lemma_value_grows(s: Seq<char>, i: int, j: int, k: int)
    requires
        0 <= i <= j <= k <= s.len(),
        forall|m: int| i <= m < k ==> is_digit(#[trigger] s[m]),
    ensures
        0 <= digits_value(s, i, j) <= digits_value(s, i, k),
    decreases k - j,
{
    lemma_value_nonneg(s, i, j);
    if j < k {
        lemma_value_grows(s, i, j, k - 1);
        assert(is_digit(s[k - 1]));
    }
}

proof fn lemma_run_digits(s: Seq<char>, i: int)
    ensures
        forall|m: int| i <= m < i + digit_run(s, i) ==> is_digit(#[trigger] s[m]),
    decreases s.len() - i,
{
    if 0 <= i < s.len() && is_digit(s[i]) {
        lemma_run_digits(s, i + 1);
    }
}

proof fn lemma_value_nonneg(s: Seq<char>, i: int, j: int)
    requires
        0 <= i <= j <= s.len(),
        forall|m: int| i <= m < j ==> is_digit(#[trigger] s[m]),
    ensures
        digits_value(s, i, j) >= 0,
    decreases j - i,
{
    if i < j {
        lemma_value_nonneg(s, i, j - 1);
        assert(is_digit(s[j - 1]));
    }
}

/// Reads `factor` at character position `i` of `text`, whose length is `n`.
fn factor_at(text: &str, n: usize, i: usize) -> (r: Result<(usize, i32), ParseError>)
    requires
        n == text@.len(),
        i <= n,
    ensures
        match (r, factor_spec(text@, i as int)) {
            (Ok((j, v)), Ok((j2, v2))) => j == j2 && v == v2,
            (Err(e), Err(e2)) => e == e2,
            _ => false,
        },
{
    let ghost s = text@;
    let mut j: usize = i;
    let mut acc: i64 = 0;
    while j < n
        invariant
            n == s.len(),
            s == text@,
            i <= j <= n,
            forall|k: int| i <= k < j ==> is_digit(#[trigger] s[k]),
            acc == digits_value(s, i as int, j as int),
            0 <= acc <= MAX_LITERAL,
        ensures
            i <= j <= n,
            forall|k: int| i <= k < j ==> is_digit(#[trigger] s[k]),
            acc == digits_value(s, i as int, j as int),
            0 <= acc <= MAX_LITERAL,
            digit_run(s, j as int) == 0,
        decreases n - j,
    {
        let c = text.get_char(j);
        if !('0' <= c && c <= '9') {
            break;
        }
        let d = (c as u32 - '0' as u32) as i64;
        acc = acc * 10 + d;
        j = j + 1;
        if acc > MAX_LITERAL as i64 {
            proof {
                lemma_run_in_bounds(s, i as int);
                lemma_run_digits(s, i as int);
                lemma_run_split(s, i as int, j as int);
                lemma_value_grows(s, i as int, j as int, i + digit_run(s, i as int));
            }
            return Err(ParseError { position: i, kind: ErrorKind::Overflow });
        }
    }
    proof {
        lemma_run_split(s, i as int, j as int);
    }
    if j == i {
        Err(ParseError { position: i, kind: ErrorKind::Digit })
    } else {
        Ok((j, acc as i32))
    }
}


/// Reads `roll` at character position `i` of `text`, whose length is `n`.
fn roll_at(text: &str, n: usize, i: usize) -> (r: Result<(usize, Node), ParseError>)
    requires
        n == text@.len(),
        i <= n,
    ensures
        match (r, roll_spec(text@, i as int)) {
            (Ok((j, node)), Ok((j2, op))) => j == j2 && j <= n && builds(node, op),
            (Err(e), Err(e2)) => e == e2,
            _ => false,
        },
{
    proof {
        lemma_roll_advances(text@, i as int);
    }
    match factor_at(text, n, i) {
        Err(e) => Err(e),
        Ok((j, a)) => {
            let count = Node::Constant(ConstantNode { value: a });
            if j < n {
                let c = text.get_char(j);
                if c == 'd' || c == 'D' {
                    match factor_at(text, n, j + 1) {
                        Err(e) => {
                            if e.kind == ErrorKind::Overflow {
                                Err(e)
                            } else {
                                Ok((j, count))
                            }
                        },
                        Ok((k, b)) => {
                            let faces = Node::Constant(ConstantNode { value: b });
                            Ok((k, Node::Roll(RollNode { left: Box::new(count), right: Box::new(faces), result: None })))
                        },
                    }
                } else {
                    Ok((j, count))
                }
            } else {
                Ok((j, count))
            }
        },
    }
}

impl Parser {
    /// Parses `expression := roll`; returns what is left of the text and the node.
    pub fn parse<'l>(&self, text: &'l str) -> (r: Result<(&'l str, Node), ParseError>)
        ensures
            match (r, roll_spec(text@, 0)) {
                (Ok((rest, node)), Ok((j, op))) => rest@ == text@.subrange(j, text@.len() as int) && builds(node, op),
                (Err(e), Err(e2)) => e == e2,
                _ => false,
            },
    {
        self.parse_roll(text)
    }

    /// Parses `term := roll ("*" roll)*` into a product node of every operand.
    pub fn parse_term<'l>(&self, text: &'l str) -> (r: Result<(&'l str, Node), ParseError>)
        ensures
            match (r, term_spec(text@)) {
                (Ok((rest, node)), Ok((j, ops))) => rest@ == text@.subrange(j, text@.len() as int) && builds_product(node, ops),
                (Err(e), Err(e2)) => e == e2,
                _ => false,
            },
    {
        let n = text.unicode_len();
        let ghost s = text@;
        match roll_at(text, n, 0) {
            Err(e) => Err(e),
            Ok((first_end, first)) => {
                let ghost first_op = roll_spec(s, 0)->Ok_0.1;
                let mut children: Vec<Node> = Vec::new();
                children.push(first);
                let ghost mut ops: Seq<Operand> = seq![first_op];
                let mut pos: usize = first_end;
                let mut failed: Option<ParseError> = None;
                while pos < n
                    invariant_except_break
                        failed is None,
                        term_spec(s) == prepend(ops, term_tail(s, pos as int)),
                    invariant
                        n == s.len(),
                        s == text@,
                        pos <= n,
                        children@.len() == ops.len(),
                        forall|k: int| 0 <= k < ops.len() ==> builds(#[trigger] children@[k], ops[k]),
                    ensures
                        pos <= n,
                        children@.len() == ops.len(),
                        forall|k: int| 0 <= k < ops.len() ==> builds(#[trigger] children@[k], ops[k]),
                        match failed {
                            Some(e) => term_spec(s) == Err::<(int, Seq<Operand>), ParseError>(e),
                            None => term_spec(s) == prepend(ops, Ok((pos as int, seq![]))),
                        },
                    decreases n - pos,
                {
                    if text.get_char(pos) != '*' {
                        break;
                    }
                    match roll_at(text, n, pos + 1) {
                        Err(e) => {
                            if e.kind == ErrorKind::Overflow {
                                failed = Some(e);
                            }
                            break;
                        },
                        Ok((next, node)) => {
                            proof {
                                lemma_roll_advances(s, pos + 1);
                                let op = roll_spec(s, pos + 1)->Ok_0.1;
                                assert(ops + (seq![op] + term_tail(s, next as int)->Ok_0.1) =~= (ops + seq![op]) + term_tail(s, next as int)->Ok_0.1);
                                ops = ops + seq![op];
                            }
                            children.push(node);
                            pos = next;
                        },
                    }
                }
                match failed {
                    Some(e) => Err(e),
                    None => {
                        proof {
                            assert(ops + seq![] =~= ops);
                        }
                        Ok((text.substring_char(pos, n), Node::Mul(MulNode { children })))
                    },
                }
            },
        }
    }

    /// Parses `roll := factor ("d" | "D") factor | factor`.
    pub fn parse_roll<'l>(&self, text: &'l str) -> (r: Result<(&'l str, Node), ParseError>)
        ensures
            match (r, roll_spec(text@, 0)) {
                (Ok((rest, node)), Ok((j, op))) => rest@ == text@.subrange(j, text@.len() as int) && builds(node, op),
                (Err(e), Err(e2)) => e == e2,
                _ => false,
            },
    {
        let n = text.unicode_len();
        match roll_at(text, n, 0) {
            Err(e) => Err(e),
            Ok((j, node)) => Ok((text.substring_char(j, n), node)),
        }
    }

    /// Parses `factor := digit+` into a constant node.
    pub fn parse_factor<'l>(&self, text: &'l str) -> (r: Result<(&'l str, Node), ParseError>)
        ensures
            match (r, factor_spec(text@, 0)) {
                (Ok((rest, node)), Ok((j, v))) => {
                    &&& rest@ == text@.subrange(j, text@.len() as int)
                    &&& node == Node::Constant(ConstantNode { value: v as i32 })
                },
                (Err(e), Err(e2)) => e == e2,
                _ => false,
            },
    {
        let n = text.unicode_len();
        proof {
            lemma_run_in_bounds(text@, 0);
        }
        match factor_at(text, n, 0) {
            Err(e) => Err(e),
            Ok((j, v)) => Ok((text.substring_char(j, n), Node::Constant(ConstantNode { value: v }))),
        }
    }
}


/// An operand that the grammar can read back from its text.
pub open spec fn valid_operand(op: Operand) -> bool {
    &&& 0 <= op.0 <= MAX_LITERAL
    &&& match op.1 {
        Some(b) => 0 <= b <= MAX_LITERAL,
        None => true,
    }
}

/// How an operand is written: `a`, or `a` `d` `b`.
pub open spec fn operand_text(op: Operand) -> Seq<char> {
    match op.1 {
        None => int_text(op.0),
        Some(b) => int_text(op.0) + seq!['d'] + int_text(b),
    }
}

/// Operands written one after another, joined by `*`.
pub open spec fn term_text(ops: Seq<Operand>) -> Seq<char>
    decreases ops.len(),
{
    if ops.len() == 0 {
        seq![]
    } else if ops.len() == 1 {
        operand_text(ops[0])
    } else {
        operand_text(ops[0]) + seq!['*'] + term_text(ops.drop_first())
    }
}

proof fn lemma_digit_char(k: int)
    requires
        0 <= k < 10,
    ensures
        is_digit(seq!['0', '1', '2', '3', '4', '5', '6', '7', '8', '9'][k]),
        digit_value(seq!['0', '1', '2', '3', '4', '5', '6', '7', '8', '9'][k]) == k,
{
    let d = seq!['0', '1', '2', '3', '4', '5', '6', '7', '8', '9'];
    if k == 0 { assert(d[k] == '0'); }
    else if k == 1 { assert(d[k] == '1'); }
    else if k == 2 { assert(d[k] == '2'); }
    else if k == 3 { assert(d[k] == '3'); }
    else if k == 4 { assert(d[k] == '4'); }
    else if k == 5 { assert(d[k] == '5'); }
    else if k == 6 { assert(d[k] == '6'); }
    else if k == 7 { assert(d[k] == '7'); }
    else if k == 8 { assert(d[k] == '8'); }
    else { assert(d[k] == '9'); }
}

proof fn lemma_value_shift(s: Seq<char>, t: Seq<char>, off: int, i: int, j: int)
    requires
        0 <= i <= j,
        forall|k: int| i <= k < j ==> s[k + off] == #[trigger] t[k],
    ensures
        digits_value(s, i + off, j + off) == digits_value(t, i, j),
    decreases j - i,
{
    if i < j {
        lemma_value_shift(s, t, off, i, j - 1);
        assert(s[(j - 1) + off] == t[j - 1]);
    }
}

/// The decimal digits of `v` are digits and read back as `v`.
proof fn lemma_digits_text(v: nat)
    ensures
        digits_text(v).len() >= 1,
        forall|i: int| 0 <= i < digits_text(v).len() ==> is_digit(#[trigger] digits_text(v)[i]),
        digits_value(digits_text(v), 0, digits_text(v).len() as int) == v,
    decreases v,
{
    let s = digits_text(v);
    lemma_digit_char((v % 10) as int);
    if v >= 10 {
        let p = digits_text(v / 10);
        lemma_digits_text(v / 10);
        assert(s == p.push(seq!['0', '1', '2', '3', '4', '5', '6', '7', '8', '9'][(v % 10) as int]));
        assert forall|k: int| 0 <= k < p.len() implies s[k + 0] == #[trigger] p[k] by {}
        lemma_value_shift(s, p, 0, 0, p.len() as int);
        assert(forall|i: int| 0 <= i < p.len() ==> s[i] == p[i]);
        assert(digits_value(s, 0, s.len() as int) == digits_value(s, 0, p.len() as int) * 10 + digit_value(s[p.len() as int]));
        assert(v == (v / 10) * 10 + v % 10);
    } else {
        assert(digits_value(s, 0, 0) == 0);
        assert(digits_value(s, 0, 1) == digit_value(s[0]));
    }
}

/// Reading `factor` where the digits of `a` stand at `p`, followed by the end
/// of the text or by a character that is no digit.
proof fn lemma_factor_read(s: Seq<char>, p: int, a: int)
    requires
        0 <= a <= MAX_LITERAL,
        0 <= p,
        p + digits_text(a as nat).len() <= s.len(),
        s.subrange(p, p + digits_text(a as nat).len()) == digits_text(a as nat),
        p + digits_text(a as nat).len() == s.len() || !is_digit(s[p + digits_text(a as nat).len()]),
    ensures
        factor_spec(s, p) == Ok::<(int, int), ParseError>((p + digits_text(a as nat).len(), a)),
{
    let d = digits_text(a as nat);
    let e = p + d.len();
    lemma_digits_text(a as nat);
    assert forall|k: int| p <= k < e implies is_digit(#[trigger] s[k]) by {
        assert(s[k] == s.subrange(p, e)[k - p]);
    }
    lemma_run_split(s, p, e);
    assert forall|k: int| 0 <= k < d.len() implies s[k + p] == #[trigger] d[k] by {
        assert(s[k + p] == s.subrange(p, e)[k]);
    }
    lemma_value_shift(s, d, p, 0, d.len() as int);
}

/// Reading `roll` where the text of `op` stands at `p`, followed by the end of
/// the text or by `*`.
pub proof fn lemma_operand_read(s: Seq<char>, p: int, op: Operand)
    requires
        valid_operand(op),
        0 <= p,
        p + operand_text(op).len() <= s.len(),
        s.subrange(p, p + operand_text(op).len()) == operand_text(op),
        p + operand_text(op).len() == s.len() || s[p + operand_text(op).len()] == '*',
    ensures
        roll_spec(s, p) == Ok::<(int, Operand), ParseError>((p + operand_text(op).len(), op)),
{
    let t = operand_text(op);
    let da = int_text(op.0);
    let j = p + da.len();
    assert(da == digits_text(op.0 as nat));
    match op.1 {
        None => {
            assert(s.subrange(p, j) =~= da);
            lemma_factor_read(s, p, op.0);
        },
        Some(b) => {
            let db = int_text(b);
            assert(db == digits_text(b as nat));
            assert(s.subrange(p, j) =~= da) by {
                assert forall|k: int| 0 <= k < da.len() implies s.subrange(p, j)[k] == da[k] by {
                    assert(s.subrange(p, j)[k] == s.subrange(p, p + t.len())[k]);
                    assert(t[k] == da[k]);
                }
            }
            assert(s[j] == 'd') by {
                assert(s[j] == s.subrange(p, p + t.len())[da.len() as int]);
            }
            lemma_factor_read(s, p, op.0);
            let q = j + 1;
            assert(s.subrange(q, q + db.len()) =~= db) by {
                assert forall|k: int| 0 <= k < db.len() implies s.subrange(q, q + db.len())[k] == db[k] by {
                    assert(s.subrange(q, q + db.len())[k] == s.subrange(p, p + t.len())[da.len() + 1 + k]);
                    assert(t[da.len() + 1 + k] == db[k]);
                }
            }
            lemma_factor_read(s, q, b);
        },
    }
}


proof fn lemma_term_text_head(ops: Seq<Operand>)
    requires
        ops.len() >= 1,
    ensures
        ops.len() == 1 ==> term_text(ops) == operand_text(ops[0]),
        ops.len() >= 2 ==> term_text(ops) == operand_text(ops[0]) + seq!['*'] + term_text(ops.drop_first()),
        term_text(ops).len() >= operand_text(ops[0]).len(),
        forall|i: int| 0 <= i < operand_text(ops[0]).len() ==> term_text(ops)[i] == #[trigger] operand_text(ops[0])[i],
{
}

proof fn lemma_tail_read(s: Seq<char>, j: int, ops: Seq<Operand>)
    requires
        0 <= j <= s.len(),
        forall|i: int| 0 <= i < ops.len() ==> valid_operand(#[trigger] ops[i]),
        (ops.len() == 0 && j == s.len()) || (ops.len() >= 1 && s.subrange(j, s.len() as int) == seq!['*'] + term_text(ops)),
    ensures
        term_tail(s, j) == Ok::<(int, Seq<Operand>), ParseError>((s.len() as int, ops)),
    decreases ops.len(),
{
    if ops.len() >= 1 {
        let u = s.subrange(j, s.len() as int);
        let t0 = operand_text(ops[0]);
        let rest = ops.drop_first();
        let p = j + 1;
        let k = p + t0.len();
        lemma_term_text_head(ops);
        assert(u.len() == 1 + term_text(ops).len());
        assert(s[j] == u[0]);
        assert(u.len() >= 1 + t0.len());
        assert(s.subrange(p, k) =~= t0) by {
            assert forall|i: int| 0 <= i < t0.len() implies s.subrange(p, k)[i] == t0[i] by {
                assert(s.subrange(p, k)[i] == u[1 + i]);
            }
        }
        if ops.len() == 1 {
            assert(k == s.len());
        } else {
            assert(s[k] == u[1 + t0.len() as int]);
            assert(u[1 + t0.len() as int] == term_text(ops)[t0.len() as int]);
            assert(s.subrange(k, s.len() as int) =~= seq!['*'] + term_text(rest)) by {
                assert forall|i: int| 0 <= i < s.len() - k implies s.subrange(k, s.len() as int)[i] == (seq!['*'] + term_text(rest))[i] by {
                    assert(s.subrange(k, s.len() as int)[i] == u[1 + t0.len() as int + i]);
                }
            }
        }
        lemma_operand_read(s, p, ops[0]);
        assert forall|i: int| 0 <= i < rest.len() implies valid_operand(#[trigger] rest[i]) by {
            assert(rest[i] == ops[i + 1]);
        }
        lemma_tail_read(s, k, rest);
        assert(s[j] == '*');
        assert(roll_spec(s, j + 1) == Ok::<(int, Operand), ParseError>((k, ops[0])));
        assert(term_tail(s, j) == prepend(seq![ops[0]], term_tail(s, k)));
        assert(seq![ops[0]] + rest =~= ops);
    } else {
        assert(ops =~= Seq::<Operand>::empty());
    }
}

/// Any operands joined by `*` are read back by `term` whole and in order;
/// the product node built from them evaluates to the product of the values
/// of its children, each evaluated on its own.
pub proof fn lemma_term_reads_product(ops: Seq<Operand>, n: Node, m: Node)
    requires
        ops.len() >= 1,
        forall|i: int| 0 <= i < ops.len() ==> valid_operand(#[trigger] ops[i]),
        builds_product(n, ops),
        evaluated(n, m),
    ensures
        term_spec(term_text(ops)) == Ok::<(int, Seq<Operand>), ParseError>((term_text(ops).len() as int, ops)),
        m is Mul,
        m->Mul_0.children@.len() == ops.len(),
        forall|i: int| 0 <= i < ops.len() ==> evaluated(n->Mul_0.children@[i], #[trigger] m->Mul_0.children@[i]),
        current(m) == prod_current(m->Mul_0.children@, ops.len() as int),
{
    let s = term_text(ops);
    let t0 = operand_text(ops[0]);
    let rest = ops.drop_first();
    if ops.len() == 1 {
        assert(s.subrange(0, t0.len() as int) =~= t0);
    } else {
        assert(s.subrange(0, t0.len() as int) =~= t0);
        assert(s.subrange(t0.len() as int, s.len() as int) =~= seq!['*'] + term_text(rest));
    }
    lemma_operand_read(s, 0, ops[0]);
    assert forall|i: int| 0 <= i < rest.len() implies valid_operand(#[trigger] rest[i]) by {
        assert(rest[i] == ops[i + 1]);
    }
    lemma_tail_read(s, t0.len() as int, rest);
    assert(seq![ops[0]] + rest =~= ops);
}

/// A non-negative literal that fits a constant is read whole by `factor`, and
/// the constant built from it evaluates to it.
pub proof fn lemma_factor_reads_literal(a: int, m: Node)
    requires
        0 <= a <= MAX_LITERAL,
        evaluated(Node::Constant(ConstantNode { value: a as i32 }), m),
    ensures
        factor_spec(int_text(a), 0) == Ok::<(int, int), ParseError>((int_text(a).len() as int, a)),
        current(m) == a,
{
    let s = int_text(a);
    assert(s.subrange(0, s.len() as int) =~= s);
    lemma_factor_read(s, 0, a);
}

proof fn lemma_dice_text_read(a: int, b: int)
    requires
        0 <= a <= MAX_LITERAL,
        0 <= b <= MAX_LITERAL,
    ensures
        roll_spec(operand_text((a, Some(b))), 0) == Ok::<(int, Operand), ParseError>(
            (operand_text((a, Some(b))).len() as int, (a, Some(b))),
        ),
{
    let s = operand_text((a, Some(b)));
    assert(s.subrange(0, s.len() as int) =~= s);
    lemma_operand_read(s, 0, (a, Some(b)));
}

/// `a` `d` `b` is read whole by `roll`; the roll built from it can be
/// evaluated when `b` is at least one and `a * b` fits, and its evaluation
/// draws `a` outcomes between one and `b` and sums them, which with `b` equal
/// to one gives `a`.
pub proof fn lemma_roll_reads_dice(a: int, b: int, n: Node, m: Node)
    requires
        0 <= a <= MAX_LITERAL,
        0 <= b <= MAX_LITERAL,
        builds(n, (a, Some(b))),
        evaluated(n, m),
    ensures
        roll_spec(operand_text((a, Some(b))), 0) == Ok::<(int, Operand), ParseError>(
            (operand_text((a, Some(b))).len() as int, (a, Some(b))),
        ),
        1 <= b && a * b <= LIMIT ==> wf(n),
        m is Roll,
        m->Roll_0.result is Some,
        m->Roll_0.result->Some_0@.len() == a,
        forall|i: int| 0 <= i < a ==> 1 <= #[trigger] m->Roll_0.result->Some_0@[i] <= b,
        current(m) == sum(m->Roll_0.result->Some_0@),
        b == 1 ==> current(m) == a,
{
    lemma_dice_text_read(a, b);
    let rn = n->Roll_0;
    let rm = m->Roll_0;
    assert(evaluated(*rn.left, *rm.left));
    assert(evaluated(*rn.right, *rm.right));
    assert(*rm.left == Node::Constant(ConstantNode { value: a as i32 }));
    assert(*rm.right == Node::Constant(ConstantNode { value: b as i32 }));
    assert(current(*rm.left) == a);
    assert(current(*rm.right) == b);
    if 1 <= b && a * b <= LIMIT {
        assert(crate::ast::bound(*rn.left) == a);
        assert(crate::ast::bound(*rn.right) == b);
        assert(crate::ast::non_negative(*rn.left));
        assert(crate::ast::positive(*rn.right));
        assert(crate::ast::bound(n) == a * b);
        assert(wf(*rn.left));
        assert(wf(*rn.right));
        assert(crate::ast::outcomes_fit(rn));
        assert(n == Node::Roll(rn));
    }
    let o = m->Roll_0.result->Some_0@;
    if b == 1 {
        lemma_sum_range(o, 1);
        assert(o.len() * 1 == o.len());
        assert(o.len() == a);
    }
}

/// Text that does not start with a digit, such as an operator with no left
/// operand, is refused by every rule, at its first character.
pub proof fn lemma_rejects_missing_operand(s: Seq<char>)
    requires
        s.len() == 0 || !is_digit(s[0]),
    ensures
        factor_spec(s, 0) == Err::<(int, int), ParseError>(error_at(0, ErrorKind::Digit)),
        roll_spec(s, 0) == Err::<(int, Operand), ParseError>(error_at(0, ErrorKind::Digit)),
        term_spec(s) == Err::<(int, Seq<Operand>), ParseError>(error_at(0, ErrorKind::Digit)),
{
}

} // verus!
