use rand::Rng;
use vstd::prelude::*;
use vstd::string::*;

verus! {

/// The largest value a node may reach in absolute terms.
pub const LIMIT: u64 = 2147483647;

/// A node that holds a constant.
#[derive(Debug)]
pub struct ConstantNode {
    pub value: i32,
}

/// A node that rolls `left` dice of `right` faces; `result` keeps the
/// outcomes of the last evaluation until the node is cleared.
#[derive(Debug)]
pub struct RollNode {
    pub left: Box<Node>,
    pub right: Box<Node>,
    pub result: Option<Vec<i32>>,
}

/// A node that multiplies the values of its children.
#[derive(Debug)]
pub struct MulNode {
    pub children: Vec<Node>,
}

/// A node of the tree: one of the three kinds.
#[derive(Debug)]
pub enum Node {
    Constant(ConstantNode),
    Roll(RollNode),
    Mul(MulNode),
}

pub open spec fn abs(v: int) -> nat {
    if v >= 0 { v as nat } else { (-v) as nat }
}

/// Sum of a sequence of outcomes.
pub open spec fn sum(s: Seq<i32>) -> int
    decreases s.len(),
{
    if s.len() == 0 { 0 } else { sum(s.drop_last()) + s.last() }
}

/// Every value the node can evaluate to is at least zero.
pub open spec fn non_negative(n: Node) -> bool
    decreases n,
{
    match n {
        Node::Constant(c) => c.value >= 0,
        Node::Roll(r) => non_negative(*r.left),
        Node::Mul(m) => forall|i: int| 0 <= i < m.children@.len() ==> non_negative(#[trigger] m.children@[i]),
    }
}

/// Every value the node can evaluate to is at least one.
pub open spec fn positive(n: Node) -> bool
    decreases n,
{
    match n {
        Node::Constant(c) => c.value >= 1,
        Node::Roll(r) => positive(*r.left),
        Node::Mul(m) => forall|i: int| 0 <= i < m.children@.len() ==> positive(#[trigger] m.children@[i]),
    }
}

/// An upper bound on the absolute value of every value the node can evaluate to.
pub open spec fn bound(n: Node) -> nat
    decreases n, 0nat,
{
    match n {
        Node::Constant(c) => abs(c.value as int),
        Node::Roll(r) => bound(*r.left) * bound(*r.right),
        Node::Mul(m) => prod_bound(m.children@, m.children@.len() as int),
    }
}

/// Product of the bounds of the first `k` nodes, each taken as at least one.
pub open spec fn prod_bound(s: Seq<Node>, k: int) -> nat
    decreases s, k,
{
    if k <= 0 || k > s.len() {
        1
    } else {
        let b = bound(s[k - 1]);
        prod_bound(s, k - 1) * (if b == 0 { 1 } else { b })
    }
}

/// The cached outcomes of a roll agree with the roll's operands.
pub open spec fn outcomes_fit(r: RollNode) -> bool {
    match r.result {
        None => true,
        Some(o) => {
            &&& o@.len() <= bound(*r.left)
            &&& (forall|i: int| 0 <= i < o@.len() ==> 1 <= #[trigger] o@[i] <= bound(*r.right))
            &&& (positive(*r.left) ==> o@.len() >= 1)
        },
    }
}

/// The node can be evaluated: every roll has a count that is never negative
/// and faces that are at least one, and no value leaves the range of `i32`.
pub open spec fn wf(n: Node) -> bool
    decreases n,
{
    match n {
        Node::Constant(c) => true,
        Node::Roll(r) => {
            &&& wf(*r.left)
            &&& wf(*r.right)
            &&& non_negative(*r.left)
            &&& positive(*r.right)
            &&& bound(n) <= LIMIT
            &&& outcomes_fit(r)
        },
        Node::Mul(m) => {
            &&& (forall|i: int| 0 <= i < m.children@.len() ==> wf(#[trigger] m.children@[i]))
            &&& bound(n) <= LIMIT
        },
    }
}

/// Every roll that evaluation or formatting of the node reaches holds outcomes.
pub open spec fn settled(n: Node) -> bool
    decreases n,
{
    match n {
        Node::Constant(c) => true,
        Node::Roll(r) => r.result is Some,
        Node::Mul(m) => forall|i: int| 0 <= i < m.children@.len() ==> settled(#[trigger] m.children@[i]),
    }
}

/// No roll in the node holds outcomes.
pub open spec fn fresh(n: Node) -> bool
    decreases n,
{
    match n {
        Node::Constant(c) => true,
        Node::Roll(r) => r.result is None && fresh(*r.left) && fresh(*r.right),
        Node::Mul(m) => forall|i: int| 0 <= i < m.children@.len() ==> fresh(#[trigger] m.children@[i]),
    }
}

/// The value of a node in its present state: the constant, the sum of a
/// roll's outcomes, or the product of the children's values.
pub open spec fn current(n: Node) -> int
    decreases n, 0nat,
{
    match n {
        Node::Constant(c) => c.value as int,
        Node::Roll(r) => match r.result {
            Some(o) => sum(o@),
            None => 0,
        },
        Node::Mul(m) => prod_current(m.children@, m.children@.len() as int),
    }
}

/// Product of the values of the first `k` nodes.
pub open spec fn prod_current(s: Seq<Node>, k: int) -> int
    decreases s, k,
{
    if k <= 0 || k > s.len() {
        1
    } else {
        prod_current(s, k - 1) * current(s[k - 1])
    }
}

/// `b` is what evaluation makes of `a`: a roll with outcomes keeps them and
/// its operands untouched; a roll without them evaluates its count and its
/// faces, and draws as many outcomes as the count, each between one and the faces.
pub open spec fn evaluated(a: Node, b: Node) -> bool
    decreases a,
{
    match a {
        Node::Constant(c) => b == a,
        Node::Roll(r) => match b {
            Node::Roll(rb) => if r.result is Some {
                b == a
            } else {
                &&& evaluated(*r.left, *rb.left)
                &&& evaluated(*r.right, *rb.right)
                &&& match rb.result {
                    Some(o) => {
                        &&& o@.len() == current(*rb.left)
                        &&& forall|i: int| 0 <= i < o@.len() ==> 1 <= #[trigger] o@[i] <= current(*rb.right)
                    },
                    None => false,
                }
            },
            _ => false,
        },
        Node::Mul(m) => match b {
            Node::Mul(mb) => {
                &&& mb.children@.len() == m.children@.len()
                &&& forall|i: int| 0 <= i < m.children@.len() ==> evaluated(#[trigger] m.children@[i], mb.children@[i])
            },
            _ => false,
        },
    }
}

/// `b` is `a` with the outcomes of every roll discarded.
pub open spec fn cleared(a: Node, b: Node) -> bool
    decreases a,
{
    match a {
        Node::Constant(c) => b == a,
        Node::Roll(r) => match b {
            Node::Roll(rb) => {
                &&& rb.result is None
                &&& cleared(*r.left, *rb.left)
                &&& cleared(*r.right, *rb.right)
            },
            _ => false,
        },
        Node::Mul(m) => match b {
            Node::Mul(mb) => {
                &&& mb.children@.len() == m.children@.len()
                &&& forall|i: int| 0 <= i < m.children@.len() ==> cleared(#[trigger] m.children@[i], mb.children@[i])
            },
            _ => false,
        },
    }
}

/// `a` and `b` have the same operands and operators, whatever their outcomes.
pub open spec fn same_limits(a: Node, b: Node) -> bool {
    &&& bound(a) == bound(b)
    &&& non_negative(a) == non_negative(b)
    &&& positive(a) == positive(b)
}


/// The sum of outcomes that each lie between one and `f` lies between their
/// number and their number times `f`.
pub proof fn lemma_sum_range(o: Seq<i32>, f: int)
    requires
        forall|i: int| 0 <= i < o.len() ==> 1 <= #[trigger] o[i] <= f,
    ensures
        o.len() <= sum(o) <= o.len() * f,
    decreases o.len(),
{
    if o.len() > 0 {
        let p = o.drop_last();
        assert forall|i: int| 0 <= i < p.len() implies 1 <= #[trigger] p[i] <= f by {
            assert(p[i] == o[i]);
        }
        lemma_sum_range(p, f);
        assert(1 <= o[o.len() - 1] <= f);
        assert(p.len() * f + f == o.len() * f) by (nonlinear_arith)
            requires
                p.len() + 1 == o.len(),
        ;
    }
}

proof fn lemma_prod_bound_grows(s: Seq<Node>, k: int, l: int)
    requires
        0 <= k <= l <= s.len(),
    ensures
        1 <= prod_bound(s, k) <= prod_bound(s, l),
    decreases l - k,
{
    if k < l {
        lemma_prod_bound_grows(s, k, l - 1);
        let b = bound(s[l - 1]);
        let f: nat = if b == 0 { 1 } else { b };
        let p = prod_bound(s, l - 1);
        assert(p <= p * f) by (nonlinear_arith)
            requires
                f >= 1,
        ;
    } else {
        lemma_prod_bound_positive(s, k);
    }
}

proof fn lemma_prod_bound_positive(s: Seq<Node>, k: int)
    ensures
        prod_bound(s, k) >= 1,
    decreases k,
{
    if 0 < k <= s.len() {
        lemma_prod_bound_positive(s, k - 1);
        let b = bound(s[k - 1]);
        let f: nat = if b == 0 { 1 } else { b };
        let p = prod_bound(s, k - 1);
        assert(p * f >= 1) by (nonlinear_arith)
            requires
                f >= 1,
                p >= 1,
        ;
    }
}

proof fn lemma_prod_bound_agree(s: Seq<Node>, t: Seq<Node>, k: int)
    requires
        0 <= k <= s.len(),
        k <= t.len(),
        forall|i: int| 0 <= i < k ==> bound(#[trigger] s[i]) == bound(t[i]),
    ensures
        prod_bound(s, k) == prod_bound(t, k),
    decreases k,
{
    if k > 0 {
        lemma_prod_bound_agree(s, t, k - 1);
    }
}

proof fn lemma_prod_current_agree(s: Seq<Node>, t: Seq<Node>, k: int)
    requires
        0 <= k <= s.len(),
        k <= t.len(),
        forall|i: int| 0 <= i < k ==> current(#[trigger] s[i]) == current(t[i]),
    ensures
        prod_current(s, k) == prod_current(t, k),
    decreases k,
{
    if k > 0 {
        lemma_prod_current_agree(s, t, k - 1);
    }
}

/// The step that multiplies one more child into a product.
proof fn lemma_product_step(acc: int, v: int, p: nat, b: nat)
    requires
        abs(acc) <= p,
        abs(v) <= b,
    ensures
        abs(acc * v) <= p * (if b == 0 { 1 } else { b }),
        acc >= 0 && v >= 0 ==> acc * v >= 0,
        acc >= 1 && v >= 1 ==> acc * v >= 1,
{
    let f: nat = if b == 0 { 1 } else { b };
    assert(abs(acc * v) == abs(acc) * abs(v)) by (nonlinear_arith);
    assert(abs(acc) * abs(v) <= p * f) by (nonlinear_arith)
        requires
            abs(acc) <= p,
            abs(v) <= f,
    ;
    assert(acc >= 1 && v >= 1 ==> acc * v >= 1) by (nonlinear_arith);
    assert(acc >= 0 && v >= 0 ==> acc * v >= 0) by (nonlinear_arith);
}

proof fn lemma_prod_current_bounded(s: Seq<Node>, k: int)
    requires
        0 <= k <= s.len(),
        forall|i: int| 0 <= i < s.len() ==> abs(current(#[trigger] s[i])) <= bound(s[i]),
    ensures
        abs(prod_current(s, k)) <= prod_bound(s, k),
        (forall|i: int| 0 <= i < s.len() ==> current(#[trigger] s[i]) >= 0) ==> prod_current(s, k) >= 0,
        (forall|i: int| 0 <= i < s.len() ==> current(#[trigger] s[i]) >= 1) ==> prod_current(s, k) >= 1,
    decreases k,
{
    if k > 0 {
        lemma_prod_current_bounded(s, k - 1);
        assert(abs(current(s[k - 1])) <= bound(s[k - 1]));
        lemma_product_step(prod_current(s, k - 1), current(s[k - 1]), prod_bound(s, k - 1), bound(s[k - 1]));
    }
}

/// The value of a well-formed node lies within its bound, and is at least
/// zero, or at least one, where the node says so.
pub proof fn lemma_current_bounded(n: Node)
    requires
        wf(n),
    ensures
        abs(current(n)) <= bound(n),
        non_negative(n) ==> current(n) >= 0,
        settled(n) && positive(n) ==> current(n) >= 1,
    decreases n,
{
    match n {
        Node::Constant(c) => {},
        Node::Roll(r) => {
            match r.result {
                Some(o) => {
                    lemma_sum_range(o@, bound(*r.right) as int);
                    assert(o@.len() * bound(*r.right) <= bound(*r.left) * bound(*r.right)) by (nonlinear_arith)
                        requires
                            o@.len() <= bound(*r.left),
                    ;
                },
                None => {},
            }
        },
        Node::Mul(m) => {
            let s = m.children@;
            assert(n == Node::Mul(m));
            assert(wf(Node::Mul(m)));
            assert forall|i: int| 0 <= i < s.len() implies wf(#[trigger] s[i]) by {
                assert(wf(m.children@[i]));
            }
            assert forall|i: int| 0 <= i < s.len() implies {
                &&& abs(current(#[trigger] s[i])) <= bound(s[i])
                &&& non_negative(s[i]) ==> current(s[i]) >= 0
                &&& settled(s[i]) && positive(s[i]) ==> current(s[i]) >= 1
            } by {
                lemma_current_bounded(s[i]);
            }
            if non_negative(n) {
                assert forall|i: int| 0 <= i < s.len() implies current(#[trigger] s[i]) >= 0 by {
                    assert(non_negative(m.children@[i]));
                }
            }
            if settled(n) && positive(n) {
                assert forall|i: int| 0 <= i < s.len() implies current(#[trigger] s[i]) >= 1 by {
                    assert(settled(m.children@[i]) && positive(m.children@[i]));
                }
            }
            lemma_prod_current_bounded(s, s.len() as int);
        },
    }
}

/// Relies on rand::thread_rng and rand::Rng::gen_range: one value drawn from
/// the inclusive range `1..=faces`, which is not empty here.
#[verifier::external_body]
fn draw(faces: i32) -> (r: i32)
    requires
        faces >= 1,
    ensures
        1 <= r <= faces,
{
    rand::thread_rng().gen_range(1..=faces)
}

fn sum_outcomes(o: &Vec<i32>, Ghost(f): Ghost<int>) -> (r: i32)
    requires
        forall|i: int| 0 <= i < o@.len() ==> 1 <= #[trigger] o@[i] <= f,
        o@.len() * f <= LIMIT,
    ensures
        r == sum(o@),
{
    let mut total: i32 = 0;
    let mut i: usize = 0;
    while i < o.len()
        invariant
            i <= o@.len(),
            forall|j: int| 0 <= j < o@.len() ==> 1 <= #[trigger] o@[j] <= f,
            o@.len() * f <= LIMIT,
            total == sum(o@.subrange(0, i as int)),
        decreases o@.len() - i,
    {
        let ghost p = o@.subrange(0, i as int);
        let ghost q = o@.subrange(0, i as int + 1);
        proof {
            assert(q.drop_last() =~= p);
            lemma_sum_range(q, f);
            assert(q.len() * f <= o@.len() * f) by (nonlinear_arith)
                requires
                    q.len() <= o@.len(),
                    f >= 1,
            ;
        }
        total = total + o[i];
        i = i + 1;
    }
    assert(o@.subrange(0, o@.len() as int) =~= o@);
    total
}


/// The decimal digits of a natural number.
pub open spec fn digits_text(v: nat) -> Seq<char>
    decreases v,
{
    let d = seq!['0', '1', '2', '3', '4', '5', '6', '7', '8', '9'][(v % 10) as int];
    if v < 10 {
        seq![d]
    } else {
        digits_text(v / 10).push(d)
    }
}

/// An integer in decimal notation, with a leading `-` when it is negative.
pub open spec fn int_text(v: int) -> Seq<char> {
    if v < 0 {
        seq!['-'] + digits_text((-v) as nat)
    } else {
        digits_text(v as nat)
    }
}

/// The outcomes of a roll in decimal, separated by `", "`.
pub open spec fn outcomes_text(o: Seq<i32>) -> Seq<char>
    decreases o.len(),
{
    if o.len() == 0 {
        seq![]
    } else if o.len() == 1 {
        int_text(o[0] as int)
    } else {
        outcomes_text(o.drop_last()) + seq![',', ' '] + int_text(o.last() as int)
    }
}

/// How a node is written: a constant in decimal; a roll as its sum followed
/// by its outcomes in brackets; a product as its children joined by `" * "`.
pub open spec fn text(n: Node) -> Seq<char>
    decreases n, 0nat,
{
    match n {
        Node::Constant(c) => int_text(c.value as int),
        Node::Roll(r) => match r.result {
            Some(o) => int_text(sum(o@)) + seq![' ', '['] + outcomes_text(o@) + seq![']'],
            None => seq![],
        },
        Node::Mul(m) => join_text(m.children@, m.children@.len() as int),
    }
}

/// The texts of the first `k` nodes joined by `" * "`.
pub open spec fn join_text(s: Seq<Node>, k: int) -> Seq<char>
    decreases s, k,
{
    if k <= 0 || k > s.len() {
        seq![]
    } else if k == 1 {
        text(s[0])
    } else {
        join_text(s, k - 1) + seq![' ', '*', ' '] + text(s[k - 1])
    }
}

/// Relies on i32's Display, reached through ToString::to_string: the value
/// in decimal, with a leading `-` when it is negative.
#[verifier::external_body]
fn decimal(v: i32) -> (r: String)
    ensures
        r@ == int_text(v as int),
{
    v.to_string()
}

fn format_node(n: &Node) -> (r: String)
    requires
        wf(*n),
        settled(*n),
    ensures
        r@ == text(*n),
    decreases *n,
{
    match n {
        Node::Constant(c) => decimal(c.value),
        Node::Roll(r) => format_roll(r),
        Node::Mul(m) => format_mul(m),
    }
}

fn format_roll(r: &RollNode) -> (t: String)
    requires
        wf(Node::Roll(*r)),
        settled(Node::Roll(*r)),
    ensures
        t@ == text(Node::Roll(*r)),
{
    let ghost faces = bound(*r.right);
    match &r.result {
        Some(o) => {
            proof {
                assert(o@.len() * faces <= bound(*r.left) * faces) by (nonlinear_arith)
                    requires
                        o@.len() <= bound(*r.left),
                ;
            }
            let total = sum_outcomes(o, Ghost(faces as int));
            let mut out = decimal(total);
            out.append(" [");
            proof {
                reveal_strlit(" [");
                assert(o@.subrange(0, 0) =~= Seq::<i32>::empty());
                assert(out@ =~= int_text(sum(o@)) + seq![' ', '['] + outcomes_text(o@.subrange(0, 0)));
            }
            let mut i: usize = 0;
            while i < o.len()
                invariant
                    i <= o@.len(),
                    out@ == int_text(sum(o@)) + seq![' ', '['] + outcomes_text(o@.subrange(0, i as int)),
                decreases o@.len() - i,
            {
                let ghost prev = out@;
                if i > 0 {
                    out.append(", ");
                }
                let piece = decimal(o[i]);
                out.append(piece.as_str());
                proof {
                    reveal_strlit(", ");
                    let q = o@.subrange(0, i as int + 1);
                    assert(q.drop_last() =~= o@.subrange(0, i as int));
                    assert(q.last() == o@[i as int]);
                    if i > 0 {
                        assert(out@ =~= prev + seq![',', ' '] + int_text(o@[i as int] as int));
                    } else {
                        assert(out@ =~= prev + int_text(o@[i as int] as int));
                    }
                    assert(out@ =~= int_text(sum(o@)) + seq![' ', '['] + outcomes_text(q));
                }
                i = i + 1;
            }
            let ghost prev = out@;
            out.append("]");
            proof {
                reveal_strlit("]");
                assert(out@ =~= prev + seq![']']);
                assert(o@.subrange(0, o@.len() as int) =~= o@);
            }
            out
        },
        None => String::new(),
    }
}

fn format_mul(m: &MulNode) -> (t: String)
    requires
        wf(Node::Mul(*m)),
        settled(Node::Mul(*m)),
    ensures
        t@ == text(Node::Mul(*m)),
    decreases *m,
{
    let mut out = String::new();
    let mut i: usize = 0;
    proof {
        assert(Node::Mul(*m)->Mul_0 == *m);
    }
    while i < m.children.len()
        invariant
            i <= m.children@.len(),
            forall|j: int| 0 <= j < m.children@.len() ==> wf(#[trigger] m.children@[j]) && settled(m.children@[j]),
            out@ == join_text(m.children@, i as int),
        decreases m.children@.len() - i,
    {
        proof {
            vstd::std_specs::vec::axiom_vec_index_decreases(m.children, i as int);
        }
        let ghost prev = out@;
        if i > 0 {
            out.append(" * ");
        }
        let piece = format_node(&m.children[i]);
        out.append(piece.as_str());
        proof {
            reveal_strlit(" * ");
            if i > 0 {
                assert(out@ =~= prev + seq![' ', '*', ' '] + text(m.children@[i as int]));
            } else {
                assert(out@ =~= text(m.children@[i as int]));
            }
        }
        i = i + 1;
    }
    out
}

fn visit_node(n: &mut Node) -> (r: i32)
    requires
        wf(*old(n)),
    ensures
        wf(*final(n)),
        settled(*final(n)),
        evaluated(*old(n), *final(n)),
        same_limits(*old(n), *final(n)),
        r == current(*final(n)),
    decreases *old(n),
{
    match n {
        Node::Constant(c) => c.value,
        Node::Roll(r) => visit_roll(r),
        Node::Mul(m) => visit_mul(m),
    }
}

fn visit_roll(r: &mut RollNode) -> (v: i32)
    requires
        wf(Node::Roll(*old(r))),
    ensures
        wf(Node::Roll(*final(r))),
        settled(Node::Roll(*final(r))),
        evaluated(Node::Roll(*old(r)), Node::Roll(*final(r))),
        same_limits(Node::Roll(*old(r)), Node::Roll(*final(r))),
        v == current(Node::Roll(*final(r))),
    decreases *old(r),
{
    let ghost faces = bound(*r.right);
    if r.result.is_none() {
        let count = visit_node(&mut r.left);
        let sides = visit_node(&mut r.right);
        proof {
            lemma_current_bounded(*r.left);
            lemma_current_bounded(*r.right);
        }
        let mut out: Vec<i32> = Vec::new();
        let mut i: i32 = 0;
        while i < count
            invariant
                0 <= i <= count,
                1 <= sides <= faces,
                out@.len() == i,
                forall|j: int| 0 <= j < out@.len() ==> 1 <= #[trigger] out@[j] <= sides,
            decreases count - i,
        {
            out.push(draw(sides));
            i = i + 1;
        }
        r.result = Some(out);
    }
    let ghost node = Node::Roll(*r);
    proof {
        lemma_current_bounded(node);
    }
    match &r.result {
        Some(o) => {
            proof {
                assert(o@.len() * faces <= bound(*r.left) * faces) by (nonlinear_arith)
                    requires
                        o@.len() <= bound(*r.left),
                ;
            }
            sum_outcomes(o, Ghost(faces as int))
        },
        None => 0,
    }
}

proof fn lemma_mul_same_limits(a: MulNode, b: MulNode)
    requires
        a.children@.len() == b.children@.len(),
        forall|j: int| 0 <= j < a.children@.len() ==> same_limits(#[trigger] a.children@[j], b.children@[j]),
    ensures
        same_limits(Node::Mul(a), Node::Mul(b)),
{
    let s = a.children@;
    let t = b.children@;
    assert forall|j: int| 0 <= j < s.len() implies bound(#[trigger] s[j]) == bound(t[j]) by {
        assert(same_limits(s[j], t[j]));
    }
    lemma_prod_bound_agree(s, t, s.len() as int);
    assert(Node::Mul(a)->Mul_0 == a);
    assert(Node::Mul(b)->Mul_0 == b);
    assert(non_negative(Node::Mul(a)) == (forall|j: int| 0 <= j < s.len() ==> non_negative(#[trigger] s[j])));
    assert(non_negative(Node::Mul(b)) == (forall|j: int| 0 <= j < t.len() ==> non_negative(#[trigger] t[j])));
    assert(positive(Node::Mul(a)) == (forall|j: int| 0 <= j < s.len() ==> positive(#[trigger] s[j])));
    assert(positive(Node::Mul(b)) == (forall|j: int| 0 <= j < t.len() ==> positive(#[trigger] t[j])));
    if non_negative(Node::Mul(a)) {
        assert forall|j: int| 0 <= j < t.len() implies non_negative(#[trigger] t[j]) by {
            assert(same_limits(s[j], t[j]));
            assert(non_negative(s[j]));
        }
    }
    if non_negative(Node::Mul(b)) {
        assert forall|j: int| 0 <= j < s.len() implies non_negative(#[trigger] s[j]) by {
            assert(same_limits(s[j], t[j]));
            assert(non_negative(t[j]));
        }
    }
    if positive(Node::Mul(a)) {
        assert forall|j: int| 0 <= j < t.len() implies positive(#[trigger] t[j]) by {
            assert(same_limits(s[j], t[j]));
            assert(positive(s[j]));
        }
    }
    if positive(Node::Mul(b)) {
        assert forall|j: int| 0 <= j < s.len() implies positive(#[trigger] s[j]) by {
            assert(same_limits(s[j], t[j]));
            assert(positive(t[j]));
        }
    }
}

fn visit_mul(m: &mut MulNode) -> (v: i32)
    requires
        wf(Node::Mul(*old(m))),
    ensures
        wf(Node::Mul(*final(m))),
        settled(Node::Mul(*final(m))),
        evaluated(Node::Mul(*old(m)), Node::Mul(*final(m))),
        same_limits(Node::Mul(*old(m)), Node::Mul(*final(m))),
        v == current(Node::Mul(*final(m))),
    decreases *old(m),
{
    let ghost before = m.children@;
    let n = m.children.len();
    let mut acc: i32 = 1;
    let mut i: usize = 0;
    proof {
        lemma_prod_bound_grows(before, 0, n as int);
    }
    while i < n
        invariant
            n == before.len(),
            m.children@.len() == n,
            i <= n,
            before == old(m).children@,
            prod_bound(before, n as int) <= LIMIT,
            forall|j: int| 0 <= j < n ==> wf(#[trigger] before[j]),
            forall|j: int| 0 <= j < i ==> {
                &&& wf(#[trigger] m.children@[j])
                &&& settled(m.children@[j])
                &&& evaluated(before[j], m.children@[j])
                &&& same_limits(before[j], m.children@[j])
            },
            forall|j: int| i <= j < n ==> #[trigger] m.children@[j] == before[j],
            acc == prod_current(m.children@, i as int),
            abs(acc as int) <= prod_bound(m.children@, i as int),
        decreases n - i,
    {
        let ghost prev = m.children@;
        proof {
            vstd::std_specs::vec::axiom_vec_index_decreases(old(m).children, i as int);
            assert(decreases_to!(*old(m) => old(m).children));
        }
        let v = visit_node(&mut m.children[i]);
        let ghost cur = m.children@;
        proof {
            lemma_current_bounded(cur[i as int]);
            lemma_prod_current_agree(prev, cur, i as int);
            lemma_prod_bound_agree(prev, cur, i as int);
            lemma_prod_bound_agree(before, cur, n as int);
            lemma_prod_bound_grows(cur, i as int + 1, n as int);
            lemma_product_step(acc as int, v as int, prod_bound(cur, i as int), bound(cur[i as int]));
        }
        acc = acc * v;
        i = i + 1;
    }
    proof {
        lemma_prod_bound_agree(before, m.children@, n as int);
        lemma_mul_same_limits(*old(m), *m);
    }
    acc
}


fn clear_node(n: &mut Node)
    requires
        wf(*old(n)),
    ensures
        wf(*final(n)),
        fresh(*final(n)),
        cleared(*old(n), *final(n)),
        same_limits(*old(n), *final(n)),
    decreases *old(n),
{
    match n {
        Node::Constant(c) => {},
        Node::Roll(r) => clear_roll(r),
        Node::Mul(m) => clear_mul(m),
    }
}

fn clear_roll(r: &mut RollNode)
    requires
        wf(Node::Roll(*old(r))),
    ensures
        wf(Node::Roll(*final(r))),
        fresh(Node::Roll(*final(r))),
        cleared(Node::Roll(*old(r)), Node::Roll(*final(r))),
        same_limits(Node::Roll(*old(r)), Node::Roll(*final(r))),
    decreases *old(r),
{
    r.result = None;
    clear_node(&mut r.left);
    clear_node(&mut r.right);
}

fn clear_mul(m: &mut MulNode)
    requires
        wf(Node::Mul(*old(m))),
    ensures
        wf(Node::Mul(*final(m))),
        fresh(Node::Mul(*final(m))),
        cleared(Node::Mul(*old(m)), Node::Mul(*final(m))),
        same_limits(Node::Mul(*old(m)), Node::Mul(*final(m))),
    decreases *old(m),
{
    let ghost before = m.children@;
    let n = m.children.len();
    let mut i: usize = 0;
    while i < n
        invariant
            n == before.len(),
            before == old(m).children@,
            m.children@.len() == n,
            i <= n,
            forall|j: int| 0 <= j < n ==> wf(#[trigger] before[j]),
            forall|j: int| 0 <= j < i ==> {
                &&& wf(#[trigger] m.children@[j])
                &&& fresh(m.children@[j])
                &&& cleared(before[j], m.children@[j])
                &&& same_limits(before[j], m.children@[j])
            },
            forall|j: int| i <= j < n ==> #[trigger] m.children@[j] == before[j],
        decreases n - i,
    {
        proof {
            vstd::std_specs::vec::axiom_vec_index_decreases(old(m).children, i as int);
            assert(decreases_to!(*old(m) => old(m).children));
        }
        clear_node(&mut m.children[i]);
        i = i + 1;
    }
    proof {
        lemma_mul_same_limits(*old(m), *m);
        lemma_prod_bound_agree(before, m.children@, n as int);
    }
}


proof fn lemma_join_text_agree(s: Seq<Node>, t: Seq<Node>, k: int)
    requires
        0 <= k <= s.len(),
        k <= t.len(),
        forall|i: int| 0 <= i < k ==> text(#[trigger] s[i]) == text(t[i]),
    ensures
        join_text(s, k) == join_text(t, k),
    decreases k,
{
    if k > 1 {
        lemma_join_text_agree(s, t, k - 1);
    }
}

/// A node whose rolls all hold outcomes is left as it was by evaluation, in
/// value and in text.
pub proof fn lemma_settled_stable(b: Node, c: Node)
    requires
        settled(b),
        evaluated(b, c),
    ensures
        settled(c),
        current(c) == current(b),
        text(c) == text(b),
    decreases b,
{
    match b {
        Node::Mul(mb) => {
            let mc = c->Mul_0;
            let s = mb.children@;
            let t = mc.children@;
            assert forall|i: int| 0 <= i < s.len() implies {
                &&& settled(#[trigger] t[i])
                &&& current(t[i]) == current(s[i])
                &&& text(t[i]) == text(s[i])
            } by {
                assert(settled(mb.children@[i]));
                assert(evaluated(mb.children@[i], t[i]));
                lemma_settled_stable(s[i], t[i]);
            }
            lemma_prod_current_agree(s, t, s.len() as int);
            lemma_join_text_agree(s, t, s.len() as int);
            assert(Node::Mul(mc)->Mul_0 == mc);
        },
        _ => {},
    }
}

/// Evaluating a node a second time, with no clearing in between, gives the
/// same value and leaves the same text: every roll keeps its outcomes.
pub proof fn lemma_visit_twice(a: Node, b: Node, c: Node)
    requires
        evaluated(a, b),
        evaluated(b, c),
    ensures
        current(c) == current(b),
        text(c) == text(b),
{
    lemma_evaluated_settled(a, b);
    lemma_settled_stable(b, c);
}

/// Evaluation leaves outcomes in every roll that it reaches.
pub proof fn lemma_evaluated_settled(a: Node, b: Node)
    requires
        evaluated(a, b),
    ensures
        settled(b),
    decreases a,
{
    match a {
        Node::Mul(m) => {
            let mb = b->Mul_0;
            assert forall|i: int| 0 <= i < mb.children@.len() implies settled(#[trigger] mb.children@[i]) by {
                assert(evaluated(m.children@[i], mb.children@[i]));
                lemma_evaluated_settled(m.children@[i], mb.children@[i]);
            }
            assert(Node::Mul(mb)->Mul_0 == mb);
        },
        _ => {},
    }
}

/// A cleared node holds no outcome anywhere.
pub proof fn lemma_cleared_fresh(a: Node, b: Node)
    requires
        cleared(a, b),
    ensures
        fresh(b),
    decreases a,
{
    match a {
        Node::Roll(r) => {
            let rb = b->Roll_0;
            lemma_cleared_fresh(*r.left, *rb.left);
            lemma_cleared_fresh(*r.right, *rb.right);
        },
        Node::Mul(m) => {
            let mb = b->Mul_0;
            assert forall|i: int| 0 <= i < mb.children@.len() implies fresh(#[trigger] mb.children@[i]) by {
                assert(cleared(m.children@[i], mb.children@[i]));
                lemma_cleared_fresh(m.children@[i], mb.children@[i]);
            }
            assert(Node::Mul(mb)->Mul_0 == mb);
        },
        _ => {},
    }
}

/// After clearing, the next evaluation of a roll cannot reuse what it drew
/// before: it draws as many outcomes as its count, each between one and its faces.
pub proof fn lemma_clear_redraws(a: RollNode, b: Node, c: Node)
    requires
        cleared(Node::Roll(a), b),
        evaluated(b, c),
    ensures
        fresh(b),
        c is Roll,
        c->Roll_0.result is Some,
        c->Roll_0.result->Some_0@.len() == current(*c->Roll_0.left),
        forall|i: int| 0 <= i < c->Roll_0.result->Some_0@.len() ==>
            1 <= #[trigger] c->Roll_0.result->Some_0@[i] <= current(*c->Roll_0.right),
{
    lemma_cleared_fresh(Node::Roll(a), b);
}

/// A bound cut off just above `LIMIT`.
pub open spec fn capped(b: nat) -> nat {
    if b > LIMIT { (LIMIT + 1) as nat } else { b }
}

proof fn lemma_capped_product(x: nat, y: nat)
    ensures
        capped(x * y) == capped(capped(x) * capped(y)),
{
    let c = (LIMIT + 1) as nat;
    if x > LIMIT && y >= 1 {
        assert(x * y >= x) by (nonlinear_arith)
            requires
                y >= 1,
        ;
        assert(c * capped(y) >= c) by (nonlinear_arith)
            requires
                capped(y) >= 1,
        ;
    } else if y > LIMIT && x >= 1 {
        assert(x * y >= y) by (nonlinear_arith)
            requires
                x >= 1,
        ;
        assert(capped(x) * c >= c) by (nonlinear_arith)
            requires
                capped(x) >= 1,
        ;
    } else if x == 0 || y == 0 {
        assert(x * y == 0) by (nonlinear_arith)
            requires
                x == 0 || y == 0,
        ;
        assert(capped(x) * capped(y) == 0) by (nonlinear_arith)
            requires
                capped(x) == 0 || capped(y) == 0,
        ;
    }
}

proof fn lemma_positive_bound(n: Node)
    requires
        wf(n),
        positive(n),
    ensures
        bound(n) >= 1,
    decreases n,
{
    match n {
        Node::Roll(r) => {
            lemma_positive_bound(*r.left);
            lemma_positive_bound(*r.right);
            assert(bound(*r.left) * bound(*r.right) >= 1) by (nonlinear_arith)
                requires
                    bound(*r.left) >= 1,
                    bound(*r.right) >= 1,
            ;
        },
        Node::Mul(m) => {
            lemma_prod_bound_positive(m.children@, m.children@.len() as int);
        },
        _ => {},
    }
}

fn mul_capped(x: u64, y: u64) -> (r: u64)
    requires
        x <= LIMIT + 1,
        y <= LIMIT + 1,
    ensures
        r == capped((x * y) as nat),
{
    assert(x * y <= 0x4000_0000_0000_0000) by (nonlinear_arith)
        requires
            x <= 0x8000_0000,
            y <= 0x8000_0000,
    ;
    let p = x * y;
    if p > LIMIT { LIMIT + 1 } else { p }
}

/// Facts about a node: its bound cut off above `LIMIT`, whether it is never
/// negative, whether it is always positive, and whether it can be evaluated.
fn limits_node(n: &Node) -> (r: (u64, bool, bool, bool))
    ensures
        r.0 == capped(bound(*n)),
        r.1 == non_negative(*n),
        r.2 == positive(*n),
        r.3 == wf(*n),
    decreases *n,
{
    match n {
        Node::Constant(c) => {
            let v = c.value as i64;
            let b: u64 = if v < 0 { (-v) as u64 } else { v as u64 };
            (b, c.value >= 0, c.value >= 1, true)
        },
        Node::Roll(r) => limits_roll(r),
        Node::Mul(m) => limits_mul(m),
    }
}

fn limits_roll(r: &RollNode) -> (t: (u64, bool, bool, bool))
    ensures
        t.0 == capped(bound(Node::Roll(*r))),
        t.1 == non_negative(Node::Roll(*r)),
        t.2 == positive(Node::Roll(*r)),
        t.3 == wf(Node::Roll(*r)),
    decreases *r,
{
    let (bl, nl, pl, wl) = limits_node(&r.left);
    let (br, nr, pr, wr) = limits_node(&r.right);
    let b = mul_capped(bl, br);
    proof {
        lemma_capped_product(bound(*r.left), bound(*r.right));
    }
    let mut ok = wl && wr && nl && pr && b <= LIMIT;
    if ok {
        proof {
            lemma_positive_bound(*r.right);
            assert(bound(*r.left) <= bound(*r.left) * bound(*r.right)) by (nonlinear_arith)
                requires
                    bound(*r.right) >= 1,
            ;
        }
        match &r.result {
            None => {},
            Some(o) => {
                if o.len() as u64 > bl || (pl && o.len() == 0) {
                    ok = false;
                } else {
                    let mut i: usize = 0;
                    while i < o.len()
                        invariant
                            i <= o@.len(),
                            br == capped(bound(*r.right)),
                            ok == (forall|j: int| 0 <= j < i ==> 1 <= #[trigger] o@[j] <= bound(*r.right)),
                        decreases o@.len() - i,
                    {
                        if o[i] < 1 || o[i] as u64 > br {
                            ok = false;
                        }
                        i = i + 1;
                    }
                }
            },
        }
    }
    (b, nl, pl, ok)
}

fn limits_mul(m: &MulNode) -> (t: (u64, bool, bool, bool))
    ensures
        t.0 == capped(bound(Node::Mul(*m))),
        t.1 == non_negative(Node::Mul(*m)),
        t.2 == positive(Node::Mul(*m)),
        t.3 == wf(Node::Mul(*m)),
    decreases *m,
{
    let ghost s = m.children@;
    let mut acc: u64 = 1;
    let mut all_nonneg = true;
    let mut all_pos = true;
    let mut all_wf = true;
    let mut i: usize = 0;
    proof {
        assert(Node::Mul(*m)->Mul_0 == *m);
    }
    while i < m.children.len()
        invariant
            s == m.children@,
            i <= s.len(),
            acc == capped(prod_bound(s, i as int)),
            all_nonneg == (forall|j: int| 0 <= j < i ==> non_negative(#[trigger] s[j])),
            all_pos == (forall|j: int| 0 <= j < i ==> positive(#[trigger] s[j])),
            all_wf == (forall|j: int| 0 <= j < i ==> wf(#[trigger] s[j])),
        decreases s.len() - i,
    {
        proof {
            vstd::std_specs::vec::axiom_vec_index_decreases(m.children, i as int);
            lemma_prod_bound_positive(s, i as int);
        }
        let (b, nn, pp, ww) = limits_node(&m.children[i]);
        let f: u64 = if b == 0 { 1 } else { b };
        proof {
            let bi = bound(s[i as int]);
            let fi: nat = if bi == 0 { 1 } else { bi };
            assert(f == capped(fi));
            lemma_capped_product(prod_bound(s, i as int), fi);
        }
        acc = mul_capped(acc, f);
        all_nonneg = all_nonneg && nn;
        all_pos = all_pos && pp;
        all_wf = all_wf && ww;
        i = i + 1;
    }
    (acc, all_nonneg, all_pos, all_wf && acc <= LIMIT)
}

impl Node {
    /// Whether the node can be evaluated: every roll has a count that is
    /// never negative and faces that are at least one, no value leaves the
    /// range of `i32`, and kept outcomes agree with their roll.
    pub fn can_evaluate(&self) -> (r: bool)
        ensures
            r == wf(*self),
    {
        limits_node(self).3
    }
}

/// The capabilities every node offers: evaluation, clearing and formatting.
pub trait AstNode: Sized {
    /// This value as a node of the tree.
    spec fn as_node(&self) -> Node;

    /// Evaluates the node: a roll that holds outcomes keeps them, any other
    /// roll evaluates its operands and draws afresh.
    fn visit(&mut self) -> (r: i32)
        requires
            wf(old(self).as_node()),
        ensures
            wf(final(self).as_node()),
            settled(final(self).as_node()),
            evaluated(old(self).as_node(), final(self).as_node()),
            same_limits(old(self).as_node(), final(self).as_node()),
            r == current(final(self).as_node()),
    ;

    /// Discards the outcomes of every roll in the node.
    fn clear(&mut self)
        requires
            wf(old(self).as_node()),
        ensures
            wf(final(self).as_node()),
            fresh(final(self).as_node()),
            cleared(old(self).as_node(), final(self).as_node()),
            same_limits(old(self).as_node(), final(self).as_node()),
    ;

    /// Writes the node as it stands after its last evaluation.
    fn format(&self) -> (r: String)
        requires
            wf(self.as_node()),
            settled(self.as_node()),
        ensures
            r@ == text(self.as_node()),
    ;
}

impl AstNode for Node {
    open spec fn as_node(&self) -> Node {
        *self
    }

    fn visit(&mut self) -> (r: i32) {
        visit_node(self)
    }

    fn clear(&mut self) {
        clear_node(self)
    }

    fn format(&self) -> (r: String) {
        format_node(self)
    }
}

impl AstNode for ConstantNode {
    open spec fn as_node(&self) -> Node {
        Node::Constant(*self)
    }

    fn visit(&mut self) -> (r: i32) {
        self.value
    }

    fn clear(&mut self) {
    }

    fn format(&self) -> (r: String) {
        decimal(self.value)
    }
}

impl AstNode for RollNode {
    open spec fn as_node(&self) -> Node {
        Node::Roll(*self)
    }

    fn visit(&mut self) -> (r: i32) {
        visit_roll(self)
    }

    fn clear(&mut self) {
        clear_roll(self)
    }

    fn format(&self) -> (r: String) {
        format_roll(self)
    }
}

impl AstNode for MulNode {
    open spec fn as_node(&self) -> Node {
        Node::Mul(*self)
    }

    fn visit(&mut self) -> (r: i32) {
        visit_mul(self)
    }

    fn clear(&mut self) {
        clear_mul(self)
    }

    fn format(&self) -> (r: String) {
        format_mul(self)
    }
}

impl ConstantNode {
    /// A constant node of the given value.
    pub fn new(value: i32) -> (r: Self)
        ensures
            r.value == value,
    {
        ConstantNode { value }
    }
}

impl MulNode {
    /// A product node of the given children, in order.
    pub fn new(children: Vec<Node>) -> (r: Self)
        ensures
            r.children == children,
    {
        MulNode { children }
    }
}

impl RollNode {
    /// A roll of `left` dice with `right` faces that has not been evaluated.
    pub fn new(left: Box<Node>, right: Box<Node>) -> (r: Self)
        ensures
            r.left == left,
            r.right == right,
            r.result is None,
    {
        RollNode { left, right, result: None }
    }

    /// Evaluates the roll as `visit` does and returns the outcomes it keeps.
    pub fn evaluate(&mut self) -> (r: &Vec<i32>)
        requires
            wf(Node::Roll(*old(self))),
        ensures
            wf(Node::Roll(*final(self))),
            evaluated(Node::Roll(*old(self)), Node::Roll(*final(self))),
            same_limits(Node::Roll(*old(self)), Node::Roll(*final(self))),
            final(self).result == Some(*r),
    {
        visit_roll(self);
        self.result.as_ref().unwrap()
    }
}

} // verus!
