//! The expression-to-tree compiler and the tree-layout queries.
//!
//! A one-line boolean-algebra expression (AND by juxtaposition, OR by
//! `+`, NOT by a postfix apostrophe, parentheses for grouping) is
//! normalized, converted to postfix by an operator-precedence pass, and
//! folded into an immutable tree of [`Gate`] nodes.  The layout queries
//! on [`Gate`] derive every geometric metric (depth, per-level column
//! width, vertical offsets, bounding width and height) that a drawing
//! layer needs to paint the tree as a circuit diagram.

use vstd::prelude::*;

use crate::spritesheet::Sprite;

verus! {

/// The AND token inserted by the normalizer and read by the converter.
pub const AND_CHAR: char = '*';

/// The OR operator.
pub const OR_CHAR: char = '+';

/// The postfix NOT operator (an apostrophe).
pub const NOT_CHAR: char = '\u{0027}';

/// An opening parenthesis.
pub const LPAREN: char = '\u{0028}';

/// A closing parenthesis.
pub const RPAREN: char = '\u{0029}';

/// The kind of a tree node: a boolean operation or a named input.
#[derive(Debug, Clone, Copy, PartialEq, Eq, Structural)]
pub enum GateType {
    AND,
    OR,
    NOT,
    INPUT,
}

/// Why an expression failed to compile into a gate tree.
#[derive(Debug, Clone, Copy, PartialEq, Eq, Structural)]
pub enum ParseError {
    /// No characters were left after whitespace removal.
    EmptyExpression,
    /// A parenthesis has no partner.
    UnmatchedParenthesis,
    /// An operator's arity could not be satisfied from the build stack.
    InsufficientOperands,
    /// Catch-all: disconnected subtrees remained after building, or an
    /// operator without a defined arity reached the builder.
    MalformedExpression,
}

/// One node of the compiled tree.  `INPUT` nodes have no inputs; `NOT`
/// has exactly one; `AND` and `OR` have exactly two.  Each internal
/// node also carries a display label derived from what feeds it.
#[derive(Debug)]
pub struct Gate {
    gate_type: GateType,
    inputs: Vec<Gate>,
    name: String,
}

/// The mathematical shape of a [`Gate`]: the same tree with its
/// collections abstracted to sequences.
pub ghost struct GateModel {
    pub gate_type: GateType,
    pub inputs: Seq<GateModel>,
    pub name: Seq<char>,
}

impl Gate {
    /// The abstract tree this node represents.
    pub closed spec fn model(self) -> GateModel
        decreases self, 1int, 0int,
    {
        GateModel {
            gate_type: self.gate_type,
            inputs: Gate::model_seq(self.inputs@, self.inputs@.len() as int),
            name: self.name@,
        }
    }

    /// The abstract trees of the first `n` gates of `s`.
    pub closed spec fn model_seq(s: Seq<Gate>, n: int) -> Seq<GateModel>
        decreases s, 0int, n,
    {
        if n <= 0 || n > s.len() {
            Seq::empty()
        } else {
            Gate::model_seq(s, n - 1).push(s[n - 1].model())
        }
    }
}

impl View for Gate {
    type V = GateModel;

    open spec fn view(&self) -> GateModel {
        self.model()
    }
}

/// How many inputs a gate of type `t` consumes.
pub open spec fn arity_of(t: GateType) -> int {
    match t {
        GateType::AND => 2,
        GateType::OR => 2,
        GateType::NOT => 1,
        GateType::INPUT => 0,
    }
}

/// The glyph that joins (or, for NOT, follows) the children's names in
/// a gate's display name.
pub open spec fn symbol_of(t: GateType) -> Seq<char> {
    match t {
        GateType::AND => Seq::empty(),
        GateType::OR => seq![OR_CHAR],
        GateType::NOT => seq![NOT_CHAR],
        GateType::INPUT => Seq::empty(),
    }
}

/// What an internal node of kind `t` is labelled: for two inputs,
/// their labels with the glyph of `t` between them; for one input, its
/// label with the glyph after it.
pub open spec fn spec_gate_name(t: GateType, inputs: Seq<GateModel>) -> Seq<char> {
    if inputs.len() == 1 {
        inputs[0].name + symbol_of(t)
    } else if inputs.len() >= 2 {
        inputs[0].name + symbol_of(t) + inputs[1].name
    } else {
        Seq::empty()
    }
}

/// Well-formedness of a tree node: the input count fits the node's
/// kind, an `INPUT` label is one character, an internal node is
/// labelled as [`spec_gate_name`] says, and every input is itself
/// well-formed.
pub open spec fn wf_model(m: GateModel) -> bool
    decreases m, 1int, 0int,
{
    &&& m.inputs.len() == arity_of(m.gate_type)
    &&& (m.gate_type is INPUT ==> m.name.len() == 1)
    &&& (!(m.gate_type is INPUT) ==> m.name == spec_gate_name(m.gate_type, m.inputs))
    &&& wf_model_seq(m.inputs, m.inputs.len() as int)
}

/// Well-formedness of the first `n` elements of `s`.
pub open spec fn wf_model_seq(s: Seq<GateModel>, n: int) -> bool
    decreases s, 0int, n,
{
    if n <= 0 || n > s.len() {
        true
    } else {
        wf_model_seq(s, n - 1) && wf_model(s[n - 1])
    }
}

/// `wf_model_seq` over a whole prefix gives well-formedness of each
/// element of that prefix.
pub proof fn lemma_wf_model_seq_index(s: Seq<GateModel>, n: int, i: int)
    requires
        wf_model_seq(s, n),
        0 <= i < n <= s.len(),
    ensures
        wf_model(s[i]),
    decreases n,
{
    if i < n - 1 {
        lemma_wf_model_seq_index(s, n - 1, i);
    }
}

/// depth: a leaf counts 1; an internal node counts 1 more than its
/// deepest child.
pub open spec fn depth_of(m: GateModel) -> int
    decreases m, 1int, 0int,
{
    1 + max_depth_of(m.inputs, m.inputs.len() as int)
}

/// The largest depth among the first `n` children in `s` (0 when none).
pub open spec fn max_depth_of(s: Seq<GateModel>, n: int) -> int
    decreases s, 0int, n,
{
    if n <= 0 || n > s.len() {
        0
    } else {
        let d = depth_of(s[n - 1]);
        let rest = max_depth_of(s, n - 1);
        if d > rest {
            d
        } else {
            rest
        }
    }
}

/// Every tree has depth at least 1, and a child is strictly shallower
/// than its parent.
pub proof fn lemma_depth_pos(m: GateModel)
    ensures
        depth_of(m) >= 1,
        forall|i: int|
            0 <= i < m.inputs.len() ==> depth_of(#[trigger] m.inputs[i]) < depth_of(m),
{
    lemma_max_depth_of_nonneg(m.inputs, m.inputs.len() as int);
    assert forall|i: int|
        0 <= i < m.inputs.len() implies depth_of(#[trigger] m.inputs[i]) < depth_of(m) by {
        lemma_max_depth_of_ge(m.inputs, m.inputs.len() as int, i);
        lemma_max_depth_of_nonneg(m.inputs, m.inputs.len() as int);
    }
}

/// The running maximum bounds each element it covers.
pub proof fn lemma_max_depth_of_ge(s: Seq<GateModel>, n: int, i: int)
    requires
        0 <= i < n <= s.len(),
    ensures
        depth_of(s[i]) <= max_depth_of(s, n),
    decreases n,
{
    if i < n - 1 {
        lemma_max_depth_of_ge(s, n - 1, i);
    }
}

pub proof fn lemma_max_depth_of_nonneg(s: Seq<GateModel>, n: int)
    ensures
        max_depth_of(s, n) >= 0,
    decreases n,
{
    if n > 0 {
        lemma_max_depth_of_nonneg(s, n - 1);
    }
}

impl Gate {
    /// True when this node and everything below it is well-formed.
    pub open spec fn wf(self) -> bool {
        wf_model(self@)
    }

    /// The number of levels in this tree: 1 for a leaf, otherwise one
    /// more than the deepest input.
    pub fn depth(&self) -> (r: u32)
        requires
            depth_of(self@) <= u32::MAX,
        ensures
            r == depth_of(self@),
        decreases *self,
    {
        if self.inputs.len() == 0 {
            1
        } else {
            let mut max_depth: u32 = 0;
            let mut i: usize = 0;
            proof {
                lemma_depth_pos(self@);
                lemma_model_seq_len(self.inputs@, self.inputs@.len() as int);
            }
            while i < self.inputs.len()
                invariant
                    0 <= i <= self.inputs.len(),
                    self@.inputs == Gate::model_seq(self.inputs@, self.inputs@.len() as int),
                    self@.inputs.len() == self.inputs@.len(),
                    depth_of(self@) <= u32::MAX,
                    max_depth == max_depth_of(self@.inputs, i as int),
                    max_depth + 1 <= u32::MAX,
                decreases self.inputs.len() - i,
            {
                proof {
                    lemma_model_seq_index(self.inputs@, self.inputs@.len() as int, i as int);
                    lemma_depth_pos(self@);
                    lemma_max_depth_of_ge(self@.inputs, self@.inputs.len() as int, i as int);
                    lemma_max_depth_of_nonneg(self@.inputs, self@.inputs.len() as int);
                    lemma_max_depth_of_mono(self@.inputs, i + 1, self@.inputs.len() as int);
                }
                let d = self.inputs[i].depth();
                if d > max_depth {
                    max_depth = d;
                }
                i += 1;
            }
            max_depth + 1
        }
    }
}

/// `model_seq` samples the models of the gates it covers.
pub proof fn lemma_model_seq_index(s: Seq<Gate>, n: int, i: int)
    requires
        0 <= i < n,
        n <= s.len(),
    ensures
        Gate::model_seq(s, n).len() == n,
        Gate::model_seq(s, n)[i] == s[i].model(),
    decreases n,
{
    lemma_model_seq_len(s, n);
    if i < n - 1 {
        lemma_model_seq_index(s, n - 1, i);
    }
}

pub proof fn lemma_model_seq_len(s: Seq<Gate>, n: int)
    requires
        0 <= n <= s.len(),
    ensures
        Gate::model_seq(s, n).len() == n,
    decreases n,
{
    if n > 0 {
        lemma_model_seq_len(s, n - 1);
    }
}

/// A longer prefix can only raise the running maximum depth.
pub proof fn lemma_max_depth_of_mono(s: Seq<GateModel>, n1: int, n2: int)
    requires
        0 <= n1 <= n2 <= s.len(),
    ensures
        max_depth_of(s, n1) <= max_depth_of(s, n2),
    decreases n2 - n1,
{
    if n1 < n2 {
        lemma_max_depth_of_mono(s, n1, n2 - 1);
    }
}


/// The precedence rank of a character: NOT (`'`) 4, AND (`*`) 3, OR
/// (`+`) 2, parentheses the sentinel -1, and every other character 0,
/// which classifies it as an operand.
pub open spec fn prec(c: char) -> int {
    if c == AND_CHAR {
        3
    } else if c == OR_CHAR {
        2
    } else if c == NOT_CHAR {
        4
    } else if c == LPAREN || c == RPAREN {
        -1
    } else {
        0
    }
}

/// The precedence table the converter works from.
pub fn operator_precedence(c: &char) -> (r: i8)
    ensures
        r as int == prec(*c),
{
    if *c == AND_CHAR {
        3
    } else if *c == OR_CHAR {
        2
    } else if *c == NOT_CHAR {
        4
    } else if *c == LPAREN || *c == RPAREN {
        -1
    } else {
        0
    }
}

/// The characters that whitespace removal strips: the Unicode
/// White_Space set.
pub open spec fn is_space(c: char) -> bool {
    c == ' ' || c == '\t' || c == '\n' || c == '\r' || c == '\u{000B}' || c == '\u{000C}'
        || c == '\u{0085}' || c == '\u{00A0}' || c == '\u{1680}'
        || ('\u{2000}' <= c && c <= '\u{200A}') || c == '\u{2028}' || c == '\u{2029}'
        || c == '\u{202F}' || c == '\u{205F}' || c == '\u{3000}'
}

fn is_space_char(c: char) -> (r: bool)
    ensures
        r == is_space(c),
{
    c == ' ' || c == '\t' || c == '\n' || c == '\r' || c == '\u{000B}' || c == '\u{000C}'
        || c == '\u{0085}' || c == '\u{00A0}' || c == '\u{1680}'
        || ('\u{2000}' <= c && c <= '\u{200A}') || c == '\u{2028}' || c == '\u{2029}'
        || c == '\u{202F}' || c == '\u{205F}' || c == '\u{3000}'
}

/// The first `n` characters of `s` with whitespace removed.
pub open spec fn stripped(s: Seq<char>, n: int) -> Seq<char>
    decreases n,
{
    if n <= 0 || n > s.len() {
        Seq::empty()
    } else {
        stripped(s, n - 1) + (if is_space(s[n - 1]) {
            Seq::<char>::empty()
        } else {
            seq![s[n - 1]]
        })
    }
}

/// Whether an explicit AND is implied between the adjacent characters
/// `a` and `b`: operand-operand, operand-`(`, `)`-operand, or
/// NOT-operand.
pub open spec fn needs_and(a: char, b: char) -> bool {
    ||| prec(a) == 0 && prec(b) == 0
    ||| prec(a) == 0 && b == LPAREN
    ||| a == RPAREN && prec(b) == 0
    ||| a == NOT_CHAR && prec(b) == 0
}

fn needs_and_exec(a: char, b: char) -> (r: bool)
    ensures
        r == needs_and(a, b),
{
    let pa = operator_precedence(&a);
    let pb = operator_precedence(&b);
    (pa == 0 && pb == 0) || (pa == 0 && b == LPAREN) || (a == RPAREN && pb == 0)
        || (a == NOT_CHAR && pb == 0)
}

/// The first `n` characters of `t` with an explicit AND token inserted
/// after each position that implies a conjunction with its successor.
pub open spec fn and_inserted(t: Seq<char>, n: int) -> Seq<char>
    decreases n,
{
    if n <= 0 || n > t.len() {
        Seq::empty()
    } else {
        let ins: Seq<char> = if n < t.len() && needs_and(t[n - 1], t[n]) {
            seq![AND_CHAR]
        } else {
            Seq::empty()
        };
        and_inserted(t, n - 1) + seq![t[n - 1]] + ins
    }
}


/// One pop phase of the converter: operators leave the stack for the
/// output while the stack's top is not an opening parenthesis and ranks
/// at least `c`.
pub open spec fn pop_ops(out: Seq<char>, st: Seq<char>, c: char) -> (Seq<char>, Seq<char>)
    decreases st.len(),
{
    if st.len() == 0 {
        (out, st)
    } else {
        let top = st[st.len() - 1];
        if top != LPAREN && prec(top) >= prec(c) {
            pop_ops(out.push(top), st.drop_last(), c)
        } else {
            (out, st)
        }
    }
}

/// On a closing parenthesis operators pop to the output until an
/// opening parenthesis is popped and discarded; an exhausted stack
/// means the parenthesis has no partner.
pub open spec fn pop_to_lparen(out: Seq<char>, st: Seq<char>) -> Result<
    (Seq<char>, Seq<char>),
    ParseError,
>
    decreases st.len(),
{
    if st.len() == 0 {
        Err(ParseError::UnmatchedParenthesis)
    } else {
        let top = st[st.len() - 1];
        if top == LPAREN {
            Ok((out, st.drop_last()))
        } else {
            pop_to_lparen(out.push(top), st.drop_last())
        }
    }
}

/// One converter step on character `c`, with output so far `out`
/// and operator stack `st`: an operand appends to the output, an
/// opening parenthesis pushes unconditionally, a closing parenthesis
/// resolves its group, and any other operator first pops while the
/// stack's top ranks at least as high.
pub open spec fn pf_step(out: Seq<char>, st: Seq<char>, c: char) -> Result<
    (Seq<char>, Seq<char>),
    ParseError,
> {
    if prec(c) == 0 {
        Ok((out.push(c), st))
    } else if c == LPAREN {
        Ok((out, st.push(c)))
    } else if c == RPAREN {
        pop_to_lparen(out, st)
    } else {
        let popped = pop_ops(out, st, c);
        Ok((popped.0, popped.1.push(c)))
    }
}

/// The converter folded over the first `n` characters of `s`.
pub open spec fn pf_run(s: Seq<char>, n: int) -> Result<(Seq<char>, Seq<char>), ParseError>
    decreases n,
{
    if n <= 0 || n > s.len() {
        Ok((Seq::empty(), Seq::empty()))
    } else {
        match pf_run(s, n - 1) {
            Ok(os) => pf_step(os.0, os.1, s[n - 1]),
            Err(e) => Err(e),
        }
    }
}

/// At end of input the remaining operators pop to the output in pop
/// order; a leftover opening parenthesis has no partner.
pub open spec fn drain_stack(out: Seq<char>, st: Seq<char>) -> Result<Seq<char>, ParseError>
    decreases st.len(),
{
    if st.len() == 0 {
        Ok(out)
    } else {
        let top = st[st.len() - 1];
        if top == LPAREN {
            Err(ParseError::UnmatchedParenthesis)
        } else {
            drain_stack(out.push(top), st.drop_last())
        }
    }
}

/// The infix-to-postfix conversion of `s`.
pub open spec fn spec_to_postfix(s: Seq<char>) -> Result<Seq<char>, ParseError> {
    match pf_run(s, s.len() as int) {
        Ok(os) => drain_stack(os.0, os.1),
        Err(e) => Err(e),
    }
}

/// A converter error reached at some prefix is the verdict on every
/// longer prefix.
pub proof fn lemma_pf_run_err(s: Seq<char>, i: int, j: int)
    requires
        0 <= i <= j <= s.len(),
        pf_run(s, i) is Err,
    ensures
        pf_run(s, j) == pf_run(s, i),
    decreases j - i,
{
    if i < j {
        lemma_pf_run_err(s, i, j - 1);
    }
}

/// The INPUT leaf a single operand character becomes.
pub open spec fn leaf_model(c: char) -> GateModel {
    GateModel { gate_type: GateType::INPUT, inputs: Seq::empty(), name: seq![c] }
}

/// Which kind of node an operator character makes.
pub open spec fn type_of_op(c: char) -> GateType {
    if c == OR_CHAR {
        GateType::OR
    } else if c == AND_CHAR {
        GateType::AND
    } else {
        GateType::NOT
    }
}

/// One builder step on a postfix token: an operand pushes a fresh leaf;
/// an operator pops its arity (failing when fewer subtrees are
/// available), restores the children's left-to-right order, and pushes
/// the new gate over them; anything else has no defined arity.
pub open spec fn build_step(st: Seq<GateModel>, c: char) -> Result<Seq<GateModel>, ParseError> {
    if prec(c) == 0 {
        Ok(st.push(leaf_model(c)))
    } else if c == OR_CHAR || c == AND_CHAR || c == NOT_CHAR {
        let t = type_of_op(c);
        let a = arity_of(t);
        if st.len() < a {
            Err(ParseError::InsufficientOperands)
        } else {
            let children = st.subrange(st.len() - a, st.len() as int);
            let node = GateModel {
                gate_type: t,
                inputs: children,
                name: spec_gate_name(t, children),
            };
            Ok(st.subrange(0, st.len() - a).push(node))
        }
    } else {
        Err(ParseError::MalformedExpression)
    }
}

/// The builder folded over the first `n` characters of the postfix
/// stream.
pub open spec fn build_run(s: Seq<char>, n: int) -> Result<Seq<GateModel>, ParseError>
    decreases n,
{
    if n <= 0 || n > s.len() {
        Ok(Seq::empty())
    } else {
        match build_run(s, n - 1) {
            Ok(st) => build_step(st, s[n - 1]),
            Err(e) => Err(e),
        }
    }
}

/// A builder error reached at some prefix is the verdict on every
/// longer prefix.
pub proof fn lemma_build_run_err(s: Seq<char>, i: int, j: int)
    requires
        0 <= i <= j <= s.len(),
        build_run(s, i) is Err,
    ensures
        build_run(s, j) == build_run(s, i),
    decreases j - i,
{
    if i < j {
        lemma_build_run_err(s, i, j - 1);
    }
}

/// The tree of a whole postfix stream: exactly one subtree must remain.
pub open spec fn spec_create_tree(s: Seq<char>) -> Result<GateModel, ParseError> {
    match build_run(s, s.len() as int) {
        Ok(st) => if st.len() == 1 {
            Ok(st[0])
        } else {
            Err(ParseError::MalformedExpression)
        },
        Err(e) => Err(e),
    }
}

/// The whole compile of one line of raw text: whitespace removal, the
/// empty-input check, AND insertion, postfix conversion, and tree
/// building.
pub open spec fn spec_parse(s: Seq<char>) -> Result<GateModel, ParseError> {
    let t = stripped(s, s.len() as int);
    if t.len() == 0 {
        Err(ParseError::EmptyExpression)
    } else {
        match spec_to_postfix(and_inserted(t, t.len() as int)) {
            Ok(p) => spec_create_tree(p),
            Err(e) => Err(e),
        }
    }
}


/// `model_seq` agrees on any common prefix.
pub proof fn lemma_model_seq_agree(s1: Seq<Gate>, s2: Seq<Gate>, n: int)
    requires
        0 <= n <= s1.len(),
        n <= s2.len(),
        forall|j: int| 0 <= j < n ==> s1[j] == s2[j],
    ensures
        Gate::model_seq(s1, n) == Gate::model_seq(s2, n),
    decreases n,
{
    if n > 0 {
        lemma_model_seq_agree(s1, s2, n - 1);
    }
}

/// Pushing one gate extends the modelled prefix by that gate's model.
pub proof fn lemma_model_seq_push(s: Seq<Gate>, g: Gate)
    ensures
        Gate::model_seq(s.push(g), s.len() as int + 1) == Gate::model_seq(s, s.len() as int).push(
            g.model(),
        ),
{
    lemma_model_seq_agree(s.push(g), s, s.len() as int);
}

/// A shorter modelled prefix is the subrange of a longer one.
pub proof fn lemma_model_seq_prefix(s: Seq<Gate>, n: int, k: int)
    requires
        0 <= k <= n <= s.len(),
    ensures
        Gate::model_seq(s, k) == Gate::model_seq(s, n).subrange(0, k),
    decreases n - k,
{
    lemma_model_seq_len(s, n);
    lemma_model_seq_len(s, k);
    if k < n {
        lemma_model_seq_prefix(s, n - 1, k);
        lemma_model_seq_len(s, n - 1);
        assert(Gate::model_seq(s, n - 1).subrange(0, k) =~= Gate::model_seq(s, n).subrange(
            0,
            k,
        ));
    } else {
        assert(Gate::model_seq(s, n).subrange(0, k) =~= Gate::model_seq(s, n));
    }
}

/// A prefix whose elements are each well-formed is well-formed as a
/// prefix.
pub proof fn lemma_wf_model_seq_all(s: Seq<GateModel>, n: int)
    requires
        0 <= n <= s.len(),
        forall|j: int| 0 <= j < n ==> wf_model(#[trigger] s[j]),
    ensures
        wf_model_seq(s, n),
    decreases n,
{
    if n > 0 {
        lemma_wf_model_seq_all(s, n - 1);
    }
}

/// Relies on `char::to_string` from std: the returned string holds
/// exactly the given character.
#[verifier::external_body]
fn char_to_string(c: char) -> (r: String)
    ensures
        r@ == seq![c],
{
    c.to_string()
}

impl Gate {
    /// The kind of this gate.
    pub fn get_type(&self) -> (r: GateType)
        ensures
            r == self@.gate_type,
    {
        self.gate_type
    }

    /// The gates feeding this one, in left-to-right input order.
    pub fn get_inputs(&self) -> (r: &Vec<Gate>)
        ensures
            r@.len() == self@.inputs.len(),
            forall|i: int| 0 <= i < r@.len() ==> (#[trigger] r@[i])@ == self@.inputs[i],
    {
        proof {
            lemma_model_seq_len(self.inputs@, self.inputs@.len() as int);
            assert forall|i: int|
                0 <= i < self.inputs@.len() implies (#[trigger] self.inputs@[i])@
                == self@.inputs[i] by {
                lemma_model_seq_index(self.inputs@, self.inputs@.len() as int, i);
            }
        }
        &self.inputs
    }

    /// The display name this gate carries.
    pub fn get_name(&self) -> (r: String)
        ensures
            r@ == self@.name,
    {
        self.name.clone()
    }

    /// The sprite that draws this gate.
    pub fn sprite_type(&self) -> (r: Sprite)
        ensures
            r == (match self@.gate_type {
                GateType::AND => Sprite::AND,
                GateType::OR => Sprite::OR,
                GateType::NOT => Sprite::NOT,
                GateType::INPUT => Sprite::INPUT,
            }),
    {
        match self.get_type() {
            GateType::AND => Sprite::AND,
            GateType::OR => Sprite::OR,
            GateType::NOT => Sprite::NOT,
            GateType::INPUT => Sprite::INPUT,
        }
    }
}

/// Whitespace removal over the raw text, collecting what remains.
#[verifier::loop_isolation(false)]
fn strip_whitespace(s: &str) -> (r: Vec<char>)
    ensures
        r@ == stripped(s@, s@.len() as int),
{
    let n = s.unicode_len();
    let mut out: Vec<char> = Vec::new();
    let mut i: usize = 0;
    while i < n
        invariant
            0 <= i <= n,
            out@ == stripped(s@, i as int),
        decreases n - i,
    {
        let c = s.get_char(i);
        if !is_space_char(c) {
            out.push(c);
        }
        proof {
            assert(out@ =~= stripped(s@, i + 1));
        }
        i += 1;
    }
    out
}

/// The normalizer's AND insertion over the whitespace-stripped stream.
#[verifier::loop_isolation(false)]
fn insert_and_tokens(t: &Vec<char>) -> (r: Vec<char>)
    ensures
        r@ == and_inserted(t@, t@.len() as int),
{
    let mut out: Vec<char> = Vec::new();
    let mut i: usize = 0;
    while i < t.len()
        invariant
            0 <= i <= t@.len(),
            out@ == and_inserted(t@, i as int),
        decreases t@.len() - i,
    {
        out.push(t[i]);
        if i + 1 < t.len() {
            if needs_and_exec(t[i], t[i + 1]) {
                out.push(AND_CHAR);
            }
        }
        proof {
            assert(out@ =~= and_inserted(t@, i + 1));
        }
        i += 1;
    }
    out
}

/// The operator-precedence conversion of the normalized infix stream
/// to postfix.
#[verifier::loop_isolation(false)]
fn infix_to_postfix(infix: &Vec<char>) -> (r: Result<Vec<char>, ParseError>)
    ensures
        (match r {
            Ok(p) => spec_to_postfix(infix@) == Ok::<Seq<char>, ParseError>(p@),
            Err(e) => spec_to_postfix(infix@) == Err::<Seq<char>, ParseError>(e),
        }),
{
    let mut out: Vec<char> = Vec::new();
    let mut st: Vec<char> = Vec::new();
    let n = infix.len();
    let mut i: usize = 0;
    while i < n
        invariant
            0 <= i <= n,
            pf_run(infix@, i as int) == Ok::<(Seq<char>, Seq<char>), ParseError>((out@, st@)),
        decreases n - i,
    {
        let c = infix[i];
        if operator_precedence(&c) == 0 {
            out.push(c);
        } else if c == LPAREN {
            st.push(c);
        } else if c == RPAREN {
            let ghost out0 = out@;
            let ghost st0 = st@;
            let mut found = false;
            while !found
                invariant
                    !found ==> pop_to_lparen(out@, st@) == pop_to_lparen(out0, st0),
                    found ==> pop_to_lparen(out0, st0) == Ok::<(Seq<char>, Seq<char>), ParseError>(
                        (out@, st@),
                    ),
                decreases st@.len(),
            {
                if st.len() == 0 {
                    proof {
                        lemma_pf_run_err(infix@, i + 1, n as int);
                    }
                    return Err(ParseError::UnmatchedParenthesis);
                }
                let top = st[st.len() - 1];
                st.pop();
                if top == LPAREN {
                    found = true;
                } else {
                    out.push(top);
                }
            }
        } else {
            let ghost out0 = out@;
            let ghost st0 = st@;
            while st.len() > 0 && st[st.len() - 1] != LPAREN && operator_precedence(
                &st[st.len() - 1],
            ) >= operator_precedence(&c)
                invariant
                    pop_ops(out@, st@, c) == pop_ops(out0, st0, c),
                decreases st@.len(),
            {
                let top = st[st.len() - 1];
                st.pop();
                out.push(top);
            }
            st.push(c);
        }
        i += 1;
    }
    let ghost out1 = out@;
    let ghost st1 = st@;
    while st.len() > 0
        invariant
            drain_stack(out@, st@) == drain_stack(out1, st1),
        decreases st@.len(),
    {
        let top = st[st.len() - 1];
        if top == LPAREN {
            return Err(ParseError::UnmatchedParenthesis);
        }
        st.pop();
        out.push(top);
    }
    Ok(out)
}


/// The builder's fold over the postfix stream: operands push INPUT
/// leaves; operators pop their arity, restore left-to-right order, and
/// push the combined gate; exactly one subtree may remain.
#[verifier::loop_isolation(false)]
fn create_tree(postfix: &Vec<char>) -> (r: Result<Gate, ParseError>)
    ensures
        (match r {
            Ok(g) => spec_create_tree(postfix@) == Ok::<GateModel, ParseError>(g@) && g.wf(),
            Err(e) => spec_create_tree(postfix@) == Err::<GateModel, ParseError>(e),
        }),
{
    let mut stack: Vec<Gate> = Vec::new();
    let n = postfix.len();
    let mut i: usize = 0;
    while i < n
        invariant
            0 <= i <= n,
            build_run(postfix@, i as int) == Ok::<Seq<GateModel>, ParseError>(
                Gate::model_seq(stack@, stack@.len() as int),
            ),
            forall|j: int| 0 <= j < stack@.len() ==> (#[trigger] stack@[j]).wf(),
        decreases n - i,
    {
        let ghost st_m = Gate::model_seq(stack@, stack@.len() as int);
        proof {
            lemma_model_seq_len(stack@, stack@.len() as int);
        }
        let c = postfix[i];
        if operator_precedence(&c) == 0 {
            let name = char_to_string(c);
            let leaf = Gate { gate_type: GateType::INPUT, inputs: Vec::new(), name };
            proof {
                assert(leaf@.inputs =~= leaf_model(c).inputs);
                assert(leaf@ == leaf_model(c));
                lemma_model_seq_push(stack@, leaf);
            }
            stack.push(leaf);
        } else if c == OR_CHAR || c == AND_CHAR || c == NOT_CHAR {
            if c != NOT_CHAR {
                if stack.len() < 2 {
                    proof {
                        lemma_build_run_err(postfix@, i + 1, n as int);
                    }
                    return Err(ParseError::InsufficientOperands);
                }
                let ghost stack0 = stack@;
                let right = stack.pop().unwrap();
                let left = stack.pop().unwrap();
                let t = if c == OR_CHAR {
                    GateType::OR
                } else {
                    GateType::AND
                };
                let mut nm = left.name.clone();
                if c == OR_CHAR {
                    let sym = char_to_string(OR_CHAR);
                    nm.append(sym.as_str());
                }
                let mut children: Vec<Gate> = Vec::new();
                nm.append(right.name.as_str());
                children.push(left);
                children.push(right);
                let g = Gate { gate_type: t, inputs: children, name: nm };
                proof {
                    let len = stack0.len() as int;
                    assert(stack@ =~= stack0.subrange(0, len - 2));
                    lemma_model_seq_index(stack0, len, len - 2);
                    lemma_model_seq_index(stack0, len, len - 1);
                    assert(children@ =~= seq![left, right]);
                    lemma_model_seq_len(children@, 2);
                    lemma_model_seq_index(children@, 2, 0);
                    lemma_model_seq_index(children@, 2, 1);
                    assert(g@.inputs =~= st_m.subrange(len - 2, len));
                    lemma_wf_model_seq_all(g@.inputs, 2);
                    assert(g@.name == spec_gate_name(t, st_m.subrange(len - 2, len)));
                    assert(g@ == (GateModel {
                        gate_type: t,
                        inputs: st_m.subrange(len - 2, len),
                        name: spec_gate_name(t, st_m.subrange(len - 2, len)),
                    }));
                    lemma_model_seq_agree(stack@, stack0, len - 2);
                    lemma_model_seq_prefix(stack0, len, len - 2);
                    lemma_model_seq_push(stack@, g);
                    assert(wf_model(g@));
                }
                stack.push(g);
            } else {
                if stack.len() < 1 {
                    proof {
                        lemma_build_run_err(postfix@, i + 1, n as int);
                    }
                    return Err(ParseError::InsufficientOperands);
                }
                let ghost stack0 = stack@;
                let child = stack.pop().unwrap();
                let mut nm = child.name.clone();
                let sym = char_to_string(NOT_CHAR);
                nm.append(sym.as_str());
                let mut children: Vec<Gate> = Vec::new();
                children.push(child);
                let g = Gate { gate_type: GateType::NOT, inputs: children, name: nm };
                proof {
                    let len = stack0.len() as int;
                    assert(stack@ =~= stack0.subrange(0, len - 1));
                    lemma_model_seq_index(stack0, len, len - 1);
                    assert(children@ =~= seq![child]);
                    lemma_model_seq_len(children@, 1);
                    lemma_model_seq_index(children@, 1, 0);
                    assert(g@.inputs =~= st_m.subrange(len - 1, len));
                    lemma_wf_model_seq_all(g@.inputs, 1);
                    assert(g@.name == spec_gate_name(GateType::NOT, st_m.subrange(len - 1, len)));
                    assert(g@ == (GateModel {
                        gate_type: GateType::NOT,
                        inputs: st_m.subrange(len - 1, len),
                        name: spec_gate_name(GateType::NOT, st_m.subrange(len - 1, len)),
                    }));
                    lemma_model_seq_agree(stack@, stack0, len - 1);
                    lemma_model_seq_prefix(stack0, len, len - 1);
                    lemma_model_seq_push(stack@, g);
                    assert(wf_model(g@));
                }
                stack.push(g);
            }
        } else {
            proof {
                lemma_build_run_err(postfix@, i + 1, n as int);
            }
            return Err(ParseError::MalformedExpression);
        }
        i += 1;
    }
    proof {
        lemma_model_seq_len(stack@, stack@.len() as int);
    }
    if stack.len() == 1 {
        proof {
            lemma_model_seq_index(stack@, 1, 0);
        }
        let g = stack.pop().unwrap();
        Ok(g)
    } else {
        Err(ParseError::MalformedExpression)
    }
}

/// Compiles one line of text into a gate tree: whitespace is stripped,
/// an explicit AND is inserted at every position implying conjunction,
/// the stream is converted to postfix, and the tree grows bottom-up
/// over a working stack.
/// Returns the typed failure instead of a tree exactly when
/// [`spec_parse`] rejects the input.
pub fn parse_boolean_expression(s: &str) -> (r: Result<Gate, ParseError>)
    ensures
        (match r {
            Ok(g) => spec_parse(s@) == Ok::<GateModel, ParseError>(g@) && g.wf(),
            Err(e) => spec_parse(s@) == Err::<GateModel, ParseError>(e),
        }),
{
    let t = strip_whitespace(s);
    if t.len() == 0 {
        return Err(ParseError::EmptyExpression);
    }
    let infix = insert_and_tokens(&t);
    match infix_to_postfix(&infix) {
        Ok(p) => create_tree(&p),
        Err(e) => Err(e),
    }
}


/// The total number of nodes in a tree.
pub open spec fn size_of(m: GateModel) -> int
    decreases m, 1int, 0int,
{
    1 + size_of_seq(m.inputs, m.inputs.len() as int)
}

/// The summed sizes of the first `n` trees of `s`.
pub open spec fn size_of_seq(s: Seq<GateModel>, n: int) -> int
    decreases s, 0int, n,
{
    if n <= 0 || n > s.len() {
        0
    } else {
        size_of_seq(s, n - 1) + size_of(s[n - 1])
    }
}

/// The number of nodes of `m` at distance `l` from the root.
pub open spec fn count_at_level(m: GateModel, l: int) -> int
    decreases m, 1int, 0int,
{
    if l < 0 {
        0
    } else if l == 0 {
        1
    } else {
        count_at_level_seq(m.inputs, m.inputs.len() as int, l - 1)
    }
}

/// The summed per-level counts of the first `n` trees of `s`.
pub open spec fn count_at_level_seq(s: Seq<GateModel>, n: int, l: int) -> int
    decreases s, 0int, n,
{
    if n <= 0 || n > s.len() {
        0
    } else {
        count_at_level_seq(s, n - 1, l) + count_at_level(s[n - 1], l)
    }
}

pub proof fn lemma_size_pos(m: GateModel)
    ensures
        size_of(m) >= 1,
    decreases m, 1int, 0int,
{
    lemma_size_seq_nonneg(m.inputs, m.inputs.len() as int);
}

pub proof fn lemma_size_seq_nonneg(s: Seq<GateModel>, n: int)
    ensures
        size_of_seq(s, n) >= 0,
        n <= s.len() ==> size_of_seq(s, n) >= n,
    decreases s, 0int, n,
{
    if n > 0 && n <= s.len() {
        lemma_size_seq_nonneg(s, n - 1);
        lemma_size_pos(s[n - 1]);
    }
}

/// Summed sizes can only grow with the prefix they cover.
pub proof fn lemma_size_seq_mono(s: Seq<GateModel>, n1: int, n2: int)
    requires
        0 <= n1 <= n2 <= s.len(),
    ensures
        size_of_seq(s, n1) <= size_of_seq(s, n2),
    decreases n2 - n1,
{
    if n1 < n2 {
        lemma_size_seq_mono(s, n1, n2 - 1);
        if n2 <= s.len() {
            lemma_size_pos(s[n2 - 1]);
        }
    }
}

/// Each tree of a prefix is no larger than the prefix's summed size.
pub proof fn lemma_size_seq_elem(s: Seq<GateModel>, n: int, i: int)
    requires
        0 <= i < n <= s.len(),
    ensures
        size_of(s[i]) <= size_of_seq(s, n),
    decreases n,
{
    if i < n - 1 {
        lemma_size_seq_elem(s, n - 1, i);
        lemma_size_pos(s[n - 1]);
    } else {
        lemma_size_seq_nonneg(s, n - 1);
    }
}

/// A child is strictly smaller than its parent.
pub proof fn lemma_child_size(m: GateModel, i: int)
    requires
        0 <= i < m.inputs.len(),
    ensures
        size_of(m.inputs[i]) < size_of(m),
        size_of(m.inputs[i]) >= 1,
{
    lemma_size_seq_elem(m.inputs, m.inputs.len() as int, i);
    lemma_size_pos(m.inputs[i]);
}

/// A level never holds more nodes than the whole tree, and never a
/// negative number of them.
pub proof fn lemma_count_le_size(m: GateModel, l: int)
    ensures
        0 <= count_at_level(m, l) <= size_of(m),
    decreases m, 1int, 0int,
{
    lemma_size_seq_nonneg(m.inputs, m.inputs.len() as int);
    if l > 0 {
        lemma_count_le_size_seq(m.inputs, m.inputs.len() as int, l - 1);
    }
}

pub proof fn lemma_count_le_size_seq(s: Seq<GateModel>, n: int, l: int)
    ensures
        0 <= count_at_level_seq(s, n, l) <= size_of_seq(s, n),
    decreases s, 0int, n,
{
    if n > 0 && n <= s.len() {
        lemma_count_le_size_seq(s, n - 1, l);
        lemma_count_le_size(s[n - 1], l);
    }
}

/// A tree is never deeper than its node count.
pub proof fn lemma_depth_le_size(m: GateModel)
    ensures
        depth_of(m) <= size_of(m),
    decreases m, 1int, 0int,
{
    lemma_depth_le_size_seq(m.inputs, m.inputs.len() as int);
}

pub proof fn lemma_depth_le_size_seq(s: Seq<GateModel>, n: int)
    ensures
        max_depth_of(s, n) <= size_of_seq(s, n),
    decreases s, 0int, n,
{
    if n > 0 && n <= s.len() {
        lemma_depth_le_size_seq(s, n - 1);
        lemma_depth_le_size(s[n - 1]);
        lemma_size_seq_nonneg(s, n - 1);
        lemma_size_pos(s[n - 1]);
        lemma_depth_pos(s[n - 1]);
        lemma_max_depth_of_nonneg(s, n - 1);
    }
}

/// The per-level node counts of a tree, ordered leaf-most level first:
/// entry `i` counts the nodes at distance `depth - 1 - i` from the
/// root, so the last entry counts the root alone.
pub open spec fn spec_column_sizes(m: GateModel) -> Seq<int> {
    Seq::new(depth_of(m) as nat, |i: int| count_at_level(m, depth_of(m) - 1 - i))
}

/// The widest per-level count among levels `0 .. l`.
pub open spec fn max_count_upto(m: GateModel, l: int) -> int
    decreases l,
{
    if l <= 0 {
        0
    } else {
        let c = count_at_level(m, l - 1);
        let rest = max_count_upto(m, l - 1);
        if c > rest {
            c
        } else {
            rest
        }
    }
}

/// The size of the single widest column of the tree.
pub open spec fn spec_largest_column(m: GateModel) -> int {
    max_count_upto(m, depth_of(m))
}

impl Gate {
    /// The number of nodes of this tree at distance `l` from its root.
    #[verifier::loop_isolation(false)]
    pub fn count_nodes_at_level(&self, l: u32) -> (r: u32)
        requires
            size_of(self@) <= u32::MAX,
        ensures
            r == count_at_level(self@, l as int),
        decreases *self,
    {
        proof {
            lemma_size_seq_nonneg(self@.inputs, self@.inputs.len() as int);
            lemma_model_seq_len(self.inputs@, self.inputs@.len() as int);
        }
        if l == 0 {
            1
        } else {
            let mut acc: u32 = 0;
            let mut i: usize = 0;
            while i < self.inputs.len()
                invariant
                    0 <= i <= self.inputs@.len(),
                    acc == count_at_level_seq(self@.inputs, i as int, l - 1),
                decreases self.inputs@.len() - i,
            {
                proof {
                    lemma_model_seq_index(self.inputs@, self.inputs@.len() as int, i as int);
                    lemma_child_size(self@, i as int);
                    lemma_count_le_size_seq(self@.inputs, i as int, l - 1);
                    lemma_count_le_size(self@.inputs[i as int], l - 1);
                    lemma_size_seq_elem(self@.inputs, self@.inputs.len() as int, i as int);
                    lemma_size_seq_mono(self@.inputs, i as int, self@.inputs.len() as int);
                    assert(count_at_level_seq(self@.inputs, i as int, l - 1) <= size_of_seq(
                        self@.inputs,
                        i as int,
                    ));
                    assert(size_of_seq(self@.inputs, i + 1) <= size_of_seq(
                        self@.inputs,
                        self@.inputs.len() as int,
                    )) by {
                        lemma_size_seq_mono(self@.inputs, i + 1, self@.inputs.len() as int);
                    }
                }
                let child_count = self.inputs[i].count_nodes_at_level(l - 1);
                acc = acc + child_count;
                i += 1;
            }
            acc
        }
    }

    /// The per-level node counts of the tree, one entry per level,
    /// ordered leaf-most level first; the last entry is the root's
    /// level and holds 1.
    #[verifier::loop_isolation(false)]
    pub fn column_sizes(&self) -> (r: Vec<u32>)
        requires
            size_of(self@) <= u32::MAX,
        ensures
            r@.len() == depth_of(self@),
            forall|i: int|
                0 <= i < r@.len() ==> r@[i] == count_at_level(self@, depth_of(self@) - 1 - i),
    {
        proof {
            lemma_depth_le_size(self@);
            lemma_depth_pos(self@);
        }
        let d = self.depth();
        let mut out: Vec<u32> = Vec::new();
        let mut i: u32 = 0;
        while i < d
            invariant
                0 <= i <= d,
                d == depth_of(self@),
                out@.len() == i,
                forall|j: int|
                    0 <= j < i ==> out@[j] == count_at_level(self@, depth_of(self@) - 1 - j),
            decreases d - i,
        {
            let c = self.count_nodes_at_level(d - 1 - i);
            out.push(c);
            i += 1;
        }
        out
    }

    /// The widest per-level count anywhere in the tree.
    #[verifier::loop_isolation(false)]
    pub fn size_of_largest_column(&self) -> (r: u32)
        requires
            size_of(self@) <= u32::MAX,
        ensures
            r == spec_largest_column(self@),
    {
        proof {
            lemma_depth_le_size(self@);
            lemma_depth_pos(self@);
        }
        let d = self.depth();
        let mut mx: u32 = 0;
        let mut l: u32 = 0;
        while l < d
            invariant
                0 <= l <= d,
                d == depth_of(self@),
                mx == max_count_upto(self@, l as int),
            decreases d - l,
        {
            let c = self.count_nodes_at_level(l);
            if c > mx {
                mx = c;
            }
            l += 1;
        }
        mx
    }
}


/// The vertical offset a child picks from its parent's origin: with a
/// single sibling the origin passes through unchanged; otherwise the
/// signed index `2*index - 1` spreads siblings by steps of the tree's
/// single widest column times the fixed step 40.
pub open spec fn spec_child_yoffset(o: int, idx: int, nsib: int, largest: int) -> int {
    if nsib == 1 {
        o
    } else {
        o + (2 * idx - 1) * (largest * 40)
    }
}

/// The machine-limit side conditions under which the spread arithmetic
/// of [`spec_child_yoffset`] stays inside signed 32-bit range and maps
/// back into the unsigned coordinate space.
pub open spec fn yoffset_in_range(o: int, idx: int, largest: int) -> bool {
    &&& 2 * idx <= i32::MAX
    &&& largest * 40 <= i32::MAX
    &&& 0 <= o <= i32::MAX
    &&& 0 <= o + (2 * idx - 1) * (largest * 40) <= i32::MAX
}

/// The smallest vertical offset reached anywhere in the tree when this
/// node is placed by [`spec_child_yoffset`] from `prev` with the given
/// sibling position.
pub open spec fn min_y_of(m: GateModel, prev: int, idx: int, nsib: int) -> int
    decreases m, 1int, 0int,
{
    let y = spec_child_yoffset(prev, idx, nsib, spec_largest_column(m));
    if m.inputs.len() == 0 {
        y
    } else {
        let h = min_y_seq(m.inputs, m.inputs.len() as int, y);
        if y < h {
            y
        } else {
            h
        }
    }
}

/// The running minimum of the first `n` children's subtree minima,
/// seeded with the parent's own offset `y`.
pub open spec fn min_y_seq(s: Seq<GateModel>, n: int, y: int) -> int
    decreases s, 0int, n,
{
    if n <= 0 || n > s.len() {
        y
    } else {
        let rest = min_y_seq(s, n - 1, y);
        let c = min_y_of(s[n - 1], y, n - 1, s.len() as int);
        if c < rest {
            c
        } else {
            rest
        }
    }
}

/// The largest vertical offset reached anywhere in the tree, with the
/// fixed per-level padding 40 accumulating while unwinding.
pub open spec fn max_y_of(m: GateModel, prev: int, idx: int, nsib: int) -> int
    decreases m, 1int, 0int,
{
    let y = spec_child_yoffset(prev, idx, nsib, spec_largest_column(m));
    if m.inputs.len() == 0 {
        y
    } else {
        let h = max_y_seq(m.inputs, m.inputs.len() as int, y);
        (if y > h {
            y
        } else {
            h
        }) + 40
    }
}

/// The running maximum of the first `n` children's subtree maxima,
/// seeded with the parent's own offset `y`.
pub open spec fn max_y_seq(s: Seq<GateModel>, n: int, y: int) -> int
    decreases s, 0int, n,
{
    if n <= 0 || n > s.len() {
        y
    } else {
        let rest = max_y_seq(s, n - 1, y);
        let c = max_y_of(s[n - 1], y, n - 1, s.len() as int);
        if c > rest {
            c
        } else {
            rest
        }
    }
}

/// Every offset met while walking the tree from `prev` stays inside
/// the machine limits the layout walk computes in: each node's offset
/// is a valid unsigned 32-bit coordinate no larger than `i32::MAX`,
/// the spread arithmetic stays in signed range, and the accumulated
/// maximum fits the unsigned coordinate space.
pub open spec fn layout_ok(m: GateModel, prev: int, idx: int, nsib: int) -> bool
    decreases m, 1int, 0int,
{
    let largest = spec_largest_column(m);
    let y = spec_child_yoffset(prev, idx, nsib, largest);
    &&& (nsib != 1 ==> yoffset_in_range(prev, idx, largest))
    &&& 0 <= y <= i32::MAX
    &&& max_y_of(m, prev, idx, nsib) <= u32::MAX
    &&& layout_ok_seq(m.inputs, m.inputs.len() as int, y)
}

pub open spec fn layout_ok_seq(s: Seq<GateModel>, n: int, y: int) -> bool
    decreases s, 0int, n,
{
    if n <= 0 || n > s.len() {
        true
    } else {
        layout_ok_seq(s, n - 1, y) && layout_ok(s[n - 1], y, n - 1, s.len() as int)
    }
}

pub proof fn lemma_layout_ok_seq_index(s: Seq<GateModel>, n: int, y: int, i: int)
    requires
        layout_ok_seq(s, n, y),
        0 <= i < n <= s.len(),
    ensures
        layout_ok(s[i], y, i, s.len() as int),
    decreases n,
{
    if i < n - 1 {
        lemma_layout_ok_seq_index(s, n - 1, y, i);
    }
}

/// The children's running minimum never exceeds the seed offset.
pub proof fn lemma_min_y_seq_le(s: Seq<GateModel>, n: int, y: int)
    ensures
        min_y_seq(s, n, y) <= y,
    decreases n,
{
    if n > 0 && n <= s.len() {
        lemma_min_y_seq_le(s, n - 1, y);
    }
}

/// The children's running maximum never drops below the seed offset.
pub proof fn lemma_max_y_seq_ge(s: Seq<GateModel>, n: int, y: int)
    ensures
        max_y_seq(s, n, y) >= y,
    decreases n,
{
    if n > 0 && n <= s.len() {
        lemma_max_y_seq_ge(s, n - 1, y);
    }
}

/// The minimum offset of a walk never exceeds its maximum.
pub proof fn lemma_min_le_max(m: GateModel, prev: int, idx: int, nsib: int)
    ensures
        min_y_of(m, prev, idx, nsib) <= max_y_of(m, prev, idx, nsib),
{
    let y = spec_child_yoffset(prev, idx, nsib, spec_largest_column(m));
    if m.inputs.len() > 0 {
        lemma_min_y_seq_le(m.inputs, m.inputs.len() as int, y);
        lemma_max_y_seq_ge(m.inputs, m.inputs.len() as int, y);
    }
}

/// Two raised to a non-negative power.
pub open spec fn pow2(e: int) -> int
    decreases e,
{
    if e <= 0 {
        1
    } else {
        2 * pow2(e - 1)
    }
}

pub proof fn lemma_pow2_pos(e: int)
    ensures
        pow2(e) >= 1,
    decreases e,
{
    if e > 0 {
        lemma_pow2_pos(e - 1);
    }
}

pub proof fn lemma_pow2_mono(a: int, b: int)
    requires
        a <= b,
    ensures
        pow2(a) <= pow2(b),
    decreases b - a,
{
    if a < b {
        lemma_pow2_mono(a, b - 1);
        lemma_pow2_pos(b - 1);
    }
}

/// The bounding height of the drawn image: twice the vertical span of
/// the layout walk seeded with the origin `2^depth * 50`, plus a fixed
/// margin of 20.
pub open spec fn spec_drawn_height(m: GateModel) -> int {
    let seed = pow2(depth_of(m)) * 50;
    2 * (max_y_of(m, seed, 0, 0) - min_y_of(m, seed, 0, 0)) + 20
}

impl Gate {
    /// The bounding width of the drawn image: 100 per level plus a
    /// fixed margin of 30.
    pub fn calculate_drawn_image_width(&self) -> (r: u32)
        requires
            100 * depth_of(self@) + 30 <= u32::MAX,
        ensures
            r == 100 * depth_of(self@) + 30,
    {
        proof {
            lemma_depth_pos(self@);
        }
        100 * self.depth() + 30
    }

    /// Where this node sits vertically, given its parent's origin, its
    /// position among its siblings, and the sibling count.  A single
    /// sibling inherits the origin; otherwise the signed index spreads
    /// siblings by the tree's single widest column times the fixed
    /// step 40, computed in signed arithmetic and re-cast to the
    /// unsigned coordinate space.
    pub fn child_yoffset_function(
        &self,
        last_origin: u32,
        index_relative_to_siblings: u32,
        num_parent_inputs: u32,
    ) -> (r: u32)
        requires
            size_of(self@) <= u32::MAX,
            num_parent_inputs != 1 ==> yoffset_in_range(
                last_origin as int,
                index_relative_to_siblings as int,
                spec_largest_column(self@),
            ),
        ensures
            r == spec_child_yoffset(
                last_origin as int,
                index_relative_to_siblings as int,
                num_parent_inputs as int,
                spec_largest_column(self@),
            ),
    {
        if num_parent_inputs == 1 {
            return last_origin;
        }
        let signed_index = (index_relative_to_siblings * 2) as i32 - 1;
        let last_origin_i32 = last_origin as i32;
        let largest = self.size_of_largest_column();
        let signed_modifier = signed_index * (largest as i32 * 40);
        (last_origin_i32 + signed_modifier) as u32
    }
}


impl Gate {
    /// The smallest vertical offset reached while recursively placing
    /// this subtree from `prev_root`.
    #[verifier::loop_isolation(false)]
    fn find_min_y_element(
        &self,
        prev_root: u32,
        index_relative_to_siblings: u32,
        num_parent_inputs: u32,
    ) -> (r: u32)
        requires
            size_of(self@) <= u32::MAX,
            layout_ok(
                self@,
                prev_root as int,
                index_relative_to_siblings as int,
                num_parent_inputs as int,
            ),
        ensures
            r == min_y_of(
                self@,
                prev_root as int,
                index_relative_to_siblings as int,
                num_parent_inputs as int,
            ),
        decreases *self,
    {
        proof {
            lemma_model_seq_len(self.inputs@, self.inputs@.len() as int);
            lemma_size_seq_nonneg(self@.inputs, self@.inputs.len() as int);
        }
        let this_y = self.child_yoffset_function(
            prev_root,
            index_relative_to_siblings,
            num_parent_inputs,
        );
        if self.inputs.len() == 0 {
            return this_y;
        }
        let mut mn = this_y;
        let mut i: usize = 0;
        while i < self.inputs.len()
            invariant
                0 <= i <= self.inputs@.len(),
                mn == min_y_seq(self@.inputs, i as int, this_y as int),
            decreases self.inputs@.len() - i,
        {
            proof {
                lemma_model_seq_index(self.inputs@, self.inputs@.len() as int, i as int);
                lemma_child_size(self@, i as int);
                lemma_layout_ok_seq_index(
                    self@.inputs,
                    self@.inputs.len() as int,
                    this_y as int,
                    i as int,
                );
            }
            let v = self.inputs[i].find_min_y_element(
                this_y,
                i as u32,
                self.inputs.len() as u32,
            );
            if v < mn {
                mn = v;
            }
            i += 1;
        }
        proof {
            lemma_min_y_seq_le(self@.inputs, self@.inputs.len() as int, this_y as int);
        }
        mn
    }

    /// The largest vertical offset reached while recursively placing
    /// this subtree from `prev_root`, with the fixed per-level padding
    /// 40 accumulating while unwinding.
    #[verifier::loop_isolation(false)]
    fn find_max_y_element(
        &self,
        prev_root: u32,
        index_relative_to_siblings: u32,
        num_parent_inputs: u32,
    ) -> (r: u32)
        requires
            size_of(self@) <= u32::MAX,
            layout_ok(
                self@,
                prev_root as int,
                index_relative_to_siblings as int,
                num_parent_inputs as int,
            ),
        ensures
            r == max_y_of(
                self@,
                prev_root as int,
                index_relative_to_siblings as int,
                num_parent_inputs as int,
            ),
        decreases *self,
    {
        proof {
            lemma_model_seq_len(self.inputs@, self.inputs@.len() as int);
            lemma_size_seq_nonneg(self@.inputs, self@.inputs.len() as int);
        }
        let this_y = self.child_yoffset_function(
            prev_root,
            index_relative_to_siblings,
            num_parent_inputs,
        );
        if self.inputs.len() == 0 {
            return this_y;
        }
        let mut mx = this_y;
        let mut i: usize = 0;
        while i < self.inputs.len()
            invariant
                0 <= i <= self.inputs@.len(),
                mx == max_y_seq(self@.inputs, i as int, this_y as int),
                mx + 40 <= u32::MAX,
            decreases self.inputs@.len() - i,
        {
            proof {
                lemma_model_seq_index(self.inputs@, self.inputs@.len() as int, i as int);
                lemma_child_size(self@, i as int);
                lemma_layout_ok_seq_index(
                    self@.inputs,
                    self@.inputs.len() as int,
                    this_y as int,
                    i as int,
                );
                lemma_max_y_seq_mono(self@.inputs, i + 1, self@.inputs.len() as int, this_y as int);
                lemma_max_y_seq_ge(self@.inputs, self@.inputs.len() as int, this_y as int);
            }
            let v = self.inputs[i].find_max_y_element(
                this_y,
                i as u32,
                self.inputs.len() as u32,
            );
            if v > mx {
                mx = v;
            }
            i += 1;
        }
        proof {
            lemma_max_y_seq_ge(self@.inputs, self@.inputs.len() as int, this_y as int);
        }
        mx + 40
    }

    /// The bounding height of the drawn image: twice the vertical span
    /// of the layout walk seeded with the origin `2^depth * 50`, plus
    /// a fixed margin of 20.
    #[verifier::loop_isolation(false)]
    pub fn calculate_drawn_image_height(&self) -> (r: u32)
        requires
            size_of(self@) <= u32::MAX,
            depth_of(self@) <= 25,
            layout_ok(self@, pow2(depth_of(self@)) * 50, 0, 0),
            spec_drawn_height(self@) <= u32::MAX,
        ensures
            r == spec_drawn_height(self@),
    {
        proof {
            lemma_depth_pos(self@);
            lemma_depth_le_size(self@);
        }
        let d = self.depth();
        let mut p: u32 = 1;
        let mut k: u32 = 0;
        while k < d
            invariant
                0 <= k <= d,
                p == pow2(k as int),
            decreases d - k,
        {
            proof {
                lemma_pow2_mono(k as int + 1, 25);
                reveal_with_fuel(pow2, 27);
            }
            p = p * 2;
            k += 1;
        }
        let seed = p * 50;
        proof {
            lemma_pow2_mono(d as int, 25);
            reveal_with_fuel(pow2, 27);
            lemma_min_le_max(self@, seed as int, 0, 0);
            lemma_min_y_nonneg(self@, seed as int, 0, 0);
        }
        let max = self.find_max_y_element(seed, 0, 0);
        let min = self.find_min_y_element(seed, 0, 0);
        2 * (max - min) + 20
    }

    /// The hook through which a caller-supplied vertical origin would
    /// be re-centered on the tree's span; it passes the origin through
    /// unchanged.
    pub fn adjusted_origin(&self, init_origin: u32) -> (r: u32)
        ensures
            r == init_origin,
    {
        init_origin
    }
}

/// The children's running maximum can only grow with the prefix it
/// covers.
pub proof fn lemma_max_y_seq_mono(s: Seq<GateModel>, n1: int, n2: int, y: int)
    requires
        0 <= n1 <= n2 <= s.len(),
    ensures
        max_y_seq(s, n1, y) <= max_y_seq(s, n2, y),
    decreases n2 - n1,
{
    if n1 < n2 {
        lemma_max_y_seq_mono(s, n1, n2 - 1, y);
    }
}

/// Under in-range inputs every offset of the walk is non-negative, so
/// the walk's minimum is too.
pub proof fn lemma_min_y_nonneg(m: GateModel, prev: int, idx: int, nsib: int)
    requires
        layout_ok(m, prev, idx, nsib),
    ensures
        min_y_of(m, prev, idx, nsib) >= 0,
    decreases m, 1int, 0int,
{
    let y = spec_child_yoffset(prev, idx, nsib, spec_largest_column(m));
    if m.inputs.len() > 0 {
        lemma_min_y_seq_nonneg(m.inputs, m.inputs.len() as int, y);
    }
}

pub proof fn lemma_min_y_seq_nonneg(s: Seq<GateModel>, n: int, y: int)
    requires
        y >= 0,
        layout_ok_seq(s, n, y),
        n <= s.len(),
    ensures
        min_y_seq(s, n, y) >= 0,
    decreases s, 0int, n,
{
    if n > 0 {
        lemma_min_y_seq_nonneg(s, n - 1, y);
        lemma_min_y_nonneg(s[n - 1], y, n - 1, s.len() as int);
    }
}


/// The summed per-level counts of `m` over levels `0 .. l`.
pub open spec fn sum_counts(m: GateModel, l: int) -> int
    decreases l,
{
    if l <= 0 {
        0
    } else {
        sum_counts(m, l - 1) + count_at_level(m, l - 1)
    }
}

/// The summed per-level counts of the first `n` trees of `s` over
/// levels `0 .. l`.
pub open spec fn sum_counts_seq(s: Seq<GateModel>, n: int, l: int) -> int
    decreases l,
{
    if l <= 0 {
        0
    } else {
        sum_counts_seq(s, n, l - 1) + count_at_level_seq(s, n, l - 1)
    }
}

/// No node sits at or beyond the tree's depth.
pub proof fn lemma_count_beyond_depth(m: GateModel, l: int)
    requires
        l >= depth_of(m),
    ensures
        count_at_level(m, l) == 0,
    decreases m, 1int, 0int,
{
    lemma_depth_pos(m);
    if m.inputs.len() > 0 {
        lemma_count_beyond_depth_seq(m.inputs, m.inputs.len() as int, l - 1);
    }
}

pub proof fn lemma_count_beyond_depth_seq(s: Seq<GateModel>, n: int, l: int)
    requires
        l >= max_depth_of(s, n),
        n <= s.len(),
    ensures
        count_at_level_seq(s, n, l) == 0,
    decreases s, 0int, n,
{
    if n > 0 {
        lemma_count_beyond_depth_seq(s, n - 1, l);
        lemma_max_depth_of_ge(s, n, n - 1);
        lemma_count_beyond_depth(s[n - 1], l);
    }
}

/// Splitting the last tree out of a prefix splits the level sums.
pub proof fn lemma_sum_counts_seq_split(s: Seq<GateModel>, n: int, l: int)
    requires
        0 < n <= s.len(),
    ensures
        sum_counts_seq(s, n, l) == sum_counts_seq(s, n - 1, l) + sum_counts(s[n - 1], l),
    decreases l,
{
    if l > 0 {
        lemma_sum_counts_seq_split(s, n, l - 1);
    }
}

/// Once every level of a tree is covered, the per-level counts sum to
/// the tree's node count.
pub proof fn lemma_sum_counts_is_size(m: GateModel, l: int)
    requires
        l >= depth_of(m),
    ensures
        sum_counts(m, l) == size_of(m),
    decreases m, 1int, 0int,
{
    lemma_depth_pos(m);
    lemma_sum_counts_shift(m, l);
    lemma_sum_counts_is_size_seq(m.inputs, m.inputs.len() as int, l - 1);
}

/// Summing a tree's levels `1 .. l` is summing its children's levels
/// `0 .. l-1`.
pub proof fn lemma_sum_counts_shift(m: GateModel, l: int)
    requires
        l >= 1,
    ensures
        sum_counts(m, l) == 1 + sum_counts_seq(m.inputs, m.inputs.len() as int, l - 1),
    decreases l,
{
    let n = m.inputs.len() as int;
    if l > 1 {
        lemma_sum_counts_shift(m, l - 1);
        assert(count_at_level(m, l - 1) == count_at_level_seq(m.inputs, n, l - 2));
        assert(sum_counts_seq(m.inputs, n, l - 1) == sum_counts_seq(m.inputs, n, l - 2)
            + count_at_level_seq(m.inputs, n, l - 2));
    } else {
        assert(sum_counts(m, 1) == sum_counts(m, 0) + count_at_level(m, 0));
        assert(count_at_level(m, 0) == 1);
        assert(sum_counts_seq(m.inputs, n, 0) == 0);
    }
}

pub proof fn lemma_sum_counts_is_size_seq(s: Seq<GateModel>, n: int, l: int)
    requires
        l >= max_depth_of(s, n),
        0 <= n <= s.len(),
    ensures
        sum_counts_seq(s, n, l) == size_of_seq(s, n),
    decreases s, 0int, n,
{
    if n == 0 {
        lemma_sum_counts_seq_zero(s, n, l);
    } else {
        lemma_sum_counts_seq_split(s, n, l);
        lemma_max_depth_of_mono(s, n - 1, n);
        lemma_sum_counts_is_size_seq(s, n - 1, l);
        lemma_max_depth_of_ge(s, n, n - 1);
        lemma_sum_counts_is_size(s[n - 1], l);
    }
}

pub proof fn lemma_sum_counts_seq_zero(s: Seq<GateModel>, n: int, l: int)
    requires
        n <= 0,
    ensures
        sum_counts_seq(s, n, l) == 0,
    decreases l,
{
    if l > 0 {
        lemma_sum_counts_seq_zero(s, n, l - 1);
    }
}

/// Law: the per-level column sizes partition the tree.  The sequence
/// has one entry per level of the tree; its last entry — the root's
/// level — holds exactly 1; and all entries together sum to the
/// tree's node count, so the entries before the last sum to the leaf
/// count plus the count of non-root internal nodes.
pub proof fn lemma_column_sizes_partition(m: GateModel)
    ensures
        spec_column_sizes(m).len() == depth_of(m),
        spec_column_sizes(m).last() == 1,
        sum_counts(m, depth_of(m)) == size_of(m),
    decreases m, 1int, 0int,
{
    lemma_depth_pos(m);
    lemma_sum_counts_is_size(m, depth_of(m));
}


/// The number of INPUT leaves in a tree.
pub open spec fn leaves_of(m: GateModel) -> int
    decreases m, 1int, 0int,
{
    if m.inputs.len() == 0 {
        1
    } else {
        leaves_seq(m.inputs, m.inputs.len() as int)
    }
}

/// The summed leaf counts of the first `n` trees of `s`.
pub open spec fn leaves_seq(s: Seq<GateModel>, n: int) -> int
    decreases s, 0int, n,
{
    if n <= 0 || n > s.len() {
        0
    } else {
        leaves_seq(s, n - 1) + leaves_of(s[n - 1])
    }
}

/// The number of operand characters (rank 0) among the first `n`
/// characters of `s`.
pub open spec fn count_operands(s: Seq<char>, n: int) -> int
    decreases n,
{
    if n <= 0 || n > s.len() {
        0
    } else {
        count_operands(s, n - 1) + (if prec(s[n - 1]) == 0 {
            1int
        } else {
            0int
        })
    }
}

/// Counting operands reads only the prefix it covers.
pub proof fn lemma_count_ops_agree(s1: Seq<char>, s2: Seq<char>, n: int)
    requires
        0 <= n <= s1.len(),
        n <= s2.len(),
        forall|j: int| 0 <= j < n ==> s1[j] == s2[j],
    ensures
        count_operands(s1, n) == count_operands(s2, n),
    decreases n,
{
    if n > 0 {
        lemma_count_ops_agree(s1, s2, n - 1);
    }
}

/// Operand counting distributes over concatenation.
pub proof fn lemma_count_ops_append(a: Seq<char>, b: Seq<char>)
    ensures
        count_operands(a + b, (a + b).len() as int) == count_operands(a, a.len() as int)
            + count_operands(b, b.len() as int),
    decreases b.len(),
{
    if b.len() == 0 {
        assert(a + b =~= a);
        lemma_count_ops_agree(a + b, a, a.len() as int);
    } else {
        let b2 = b.drop_last();
        lemma_count_ops_append(a, b2);
        assert((a + b).len() == a.len() + b.len());
        assert((a + b)[(a + b).len() - 1] == b.last());
        lemma_count_ops_agree(a + b, a + b2, (a + b2).len() as int);
        lemma_count_ops_agree(b, b2, b2.len() as int);
    }
}

/// Inserting AND tokens adds no operand: the normalized stream holds
/// exactly the operands of the stripped text it covers.
pub proof fn lemma_norm_preserves_operands(t: Seq<char>, n: int)
    requires
        0 <= n <= t.len(),
    ensures
        count_operands(and_inserted(t, n), and_inserted(t, n).len() as int) == count_operands(
            t,
            n,
        ),
    decreases n,
{
    if n > 0 {
        lemma_norm_preserves_operands(t, n - 1);
        let prev = and_inserted(t, n - 1);
        let mid = seq![t[n - 1]];
        let ins: Seq<char> = if n < t.len() && needs_and(t[n - 1], t[n]) {
            seq![AND_CHAR]
        } else {
            Seq::empty()
        };
        lemma_count_ops_append(prev, mid);
        lemma_count_ops_append(prev + mid, ins);
        assert(count_operands(mid, 0) == 0);
        assert(mid[0] == t[n - 1]);
        assert(count_operands(mid, 1) == (if prec(t[n - 1]) == 0 {
            1int
        } else {
            0int
        }));
        assert(count_operands(ins, 0) == 0);
        if ins.len() > 0 {
            assert(ins[0] == AND_CHAR);
            assert(count_operands(ins, 1) == 0);
        }
        assert(count_operands(ins, ins.len() as int) == 0);
        assert(and_inserted(t, n) == prev + mid + ins);
    }
}


/// True when no character of the converter's operator stack is an
/// operand.
pub open spec fn all_operators(st: Seq<char>) -> bool {
    forall|j: int| 0 <= j < st.len() ==> prec(#[trigger] st[j]) != 0
}

/// Appending one non-operand character leaves the operand count alone.
pub proof fn lemma_count_ops_push(out: Seq<char>, c: char)
    requires
        prec(c) != 0,
    ensures
        count_operands(out.push(c), out.len() as int + 1) == count_operands(out, out.len() as int),
{
    assert(out.push(c) =~= out + seq![c]);
    lemma_count_ops_append(out, seq![c]);
    assert(count_operands(seq![c], 0) == 0);
    assert(count_operands(seq![c], 1) == 0);
}

/// The pop phase moves operators only: the output's operand count and
/// the stack's freedom from operands both survive it.
pub proof fn lemma_pop_ops_operands(out: Seq<char>, st: Seq<char>, c: char)
    requires
        all_operators(st),
    ensures
        count_operands(pop_ops(out, st, c).0, pop_ops(out, st, c).0.len() as int)
            == count_operands(out, out.len() as int),
        all_operators(pop_ops(out, st, c).1),
    decreases st.len(),
{
    if st.len() > 0 {
        let top = st[st.len() - 1];
        if top != LPAREN && prec(top) >= prec(c) {
            lemma_count_ops_push(out, top);
            assert(all_operators(st.drop_last()));
            lemma_pop_ops_operands(out.push(top), st.drop_last(), c);
        }
    }
}

/// Resolving a group moves operators only.
pub proof fn lemma_pop_to_lparen_operands(out: Seq<char>, st: Seq<char>)
    requires
        all_operators(st),
    ensures
        (match pop_to_lparen(out, st) {
            Ok(os) => count_operands(os.0, os.0.len() as int) == count_operands(
                out,
                out.len() as int,
            ) && all_operators(os.1),
            Err(_) => true,
        }),
    decreases st.len(),
{
    if st.len() > 0 {
        let top = st[st.len() - 1];
        assert(all_operators(st.drop_last()));
        if top != LPAREN {
            lemma_count_ops_push(out, top);
            lemma_pop_to_lparen_operands(out.push(top), st.drop_last());
        }
    }
}

/// The end-of-input drain moves operators only.
pub proof fn lemma_drain_operands(out: Seq<char>, st: Seq<char>)
    requires
        all_operators(st),
    ensures
        (match drain_stack(out, st) {
            Ok(p) => count_operands(p, p.len() as int) == count_operands(out, out.len() as int),
            Err(_) => true,
        }),
    decreases st.len(),
{
    if st.len() > 0 {
        let top = st[st.len() - 1];
        assert(all_operators(st.drop_last()));
        if top != LPAREN {
            lemma_count_ops_push(out, top);
            lemma_drain_operands(out.push(top), st.drop_last());
        }
    }
}

/// Through any prefix of the conversion, the output holds exactly the
/// operands read so far and the stack holds none.
pub proof fn lemma_pf_run_operands(s: Seq<char>, n: int)
    requires
        0 <= n <= s.len(),
    ensures
        (match pf_run(s, n) {
            Ok(os) => count_operands(os.0, os.0.len() as int) == count_operands(s, n)
                && all_operators(os.1),
            Err(_) => true,
        }),
    decreases n,
{
    if n > 0 {
        lemma_pf_run_operands(s, n - 1);
        if pf_run(s, n - 1) is Ok {
            let os = pf_run(s, n - 1)->Ok_0;
            let out = os.0;
            let st = os.1;
            let c = s[n - 1];
            if prec(c) == 0 {
                assert(out.push(c) =~= out + seq![c]);
                lemma_count_ops_append(out, seq![c]);
                assert(count_operands(seq![c], 0) == 0);
                assert(count_operands(seq![c], 1) == 1);
            } else if c == LPAREN {
                assert(all_operators(st.push(c)));
            } else if c == RPAREN {
                lemma_pop_to_lparen_operands(out, st);
            } else {
                lemma_pop_ops_operands(out, st, c);
                assert(all_operators(pop_ops(out, st, c).1.push(c)));
            }
        }
    }
}

/// A successful conversion preserves the operand count.
pub proof fn lemma_to_postfix_operands(s: Seq<char>)
    requires
        spec_to_postfix(s) is Ok,
    ensures
        count_operands(spec_to_postfix(s)->Ok_0, spec_to_postfix(s)->Ok_0.len() as int)
            == count_operands(s, s.len() as int),
{
    lemma_pf_run_operands(s, s.len() as int);
    let os = pf_run(s, s.len() as int)->Ok_0;
    lemma_drain_operands(os.0, os.1);
}

/// Counting leaves reads only the prefix it covers.
pub proof fn lemma_leaves_seq_agree(s1: Seq<GateModel>, s2: Seq<GateModel>, n: int)
    requires
        0 <= n <= s1.len(),
        n <= s2.len(),
        forall|j: int| 0 <= j < n ==> s1[j] == s2[j],
    ensures
        leaves_seq(s1, n) == leaves_seq(s2, n),
    decreases n,
{
    if n > 0 {
        lemma_leaves_seq_agree(s1, s2, n - 1);
    }
}

/// One builder step conserves leaves: an operand step adds the one
/// leaf it reads, an operator step only regroups subtrees.
pub proof fn lemma_build_step_leaves(st: Seq<GateModel>, c: char)
    requires
        build_step(st, c) is Ok,
    ensures
        leaves_seq(build_step(st, c)->Ok_0, build_step(st, c)->Ok_0.len() as int) == leaves_seq(
            st,
            st.len() as int,
        ) + (if prec(c) == 0 {
            1int
        } else {
            0int
        }),
{
    let len = st.len() as int;
    if prec(c) == 0 {
        let st2 = st.push(leaf_model(c));
        lemma_leaves_seq_agree(st2, st, len);
        assert(leaves_of(leaf_model(c)) == 1);
        assert(leaves_seq(st2, len + 1) == leaves_seq(st2, len) + leaves_of(st2[len]));
    } else {
        let t = type_of_op(c);
        let a = arity_of(t);
        let children = st.subrange(len - a, len);
        let node = GateModel { gate_type: t, inputs: children, name: spec_gate_name(t, children) };
        let st2 = st.subrange(0, len - a).push(node);
        assert(leaves_seq(children, 0) == 0);
        if a == 2 {
            assert(children[0] == st[len - 2] && children[1] == st[len - 1]);
            assert(leaves_seq(children, 1) == leaves_of(st[len - 2]));
            assert(leaves_seq(children, 2) == leaves_of(st[len - 2]) + leaves_of(st[len - 1]));
            assert(leaves_seq(st, len) == leaves_seq(st, len - 1) + leaves_of(st[len - 1]));
            assert(leaves_seq(st, len - 1) == leaves_seq(st, len - 2) + leaves_of(st[len - 2]));
        } else {
            assert(children[0] == st[len - 1]);
            assert(leaves_seq(children, 1) == leaves_of(st[len - 1]));
            assert(leaves_seq(st, len) == leaves_seq(st, len - 1) + leaves_of(st[len - 1]));
        }
        assert(leaves_of(node) == leaves_seq(children, a));
        lemma_leaves_seq_agree(st2, st, len - a);
        assert(leaves_seq(st2, len - a + 1) == leaves_seq(st2, len - a) + leaves_of(node));
    }
}

/// Through any prefix of the postfix stream, the working stack holds
/// exactly one leaf per operand read so far.
pub proof fn lemma_build_run_leaves(s: Seq<char>, n: int)
    requires
        0 <= n <= s.len(),
    ensures
        (match build_run(s, n) {
            Ok(st) => leaves_seq(st, st.len() as int) == count_operands(s, n),
            Err(_) => true,
        }),
    decreases n,
{
    if n > 0 {
        lemma_build_run_leaves(s, n - 1);
        if build_run(s, n - 1) is Ok {
            let st = build_run(s, n - 1)->Ok_0;
            if build_step(st, s[n - 1]) is Ok {
                lemma_build_step_leaves(st, s[n - 1]);
            }
        }
    }
}

/// Law: a compiled tree has exactly one INPUT leaf per operand
/// occurrence among the input's non-whitespace characters — repeated
/// operands give repeated leaves; inserted AND tokens, conversion and
/// grouping add none.
pub proof fn lemma_parse_leaf_count(s: Seq<char>)
    requires
        spec_parse(s) is Ok,
    ensures
        leaves_of(spec_parse(s)->Ok_0) == count_operands(
            stripped(s, s.len() as int),
            stripped(s, s.len() as int).len() as int,
        ),
{
    let t = stripped(s, s.len() as int);
    let norm = and_inserted(t, t.len() as int);
    lemma_norm_preserves_operands(t, t.len() as int);
    lemma_to_postfix_operands(norm);
    let p = spec_to_postfix(norm)->Ok_0;
    lemma_build_run_leaves(p, p.len() as int);
    let st = build_run(p, p.len() as int)->Ok_0;
    assert(leaves_seq(st, 1) == leaves_seq(st, 0) + leaves_of(st[0]));
}


/// `k` single-character operands from `t` joined by the one operator
/// `op`.
pub open spec fn interleaved(t: Seq<char>, op: char, k: int) -> Seq<char>
    decreases k,
{
    if k <= 0 {
        Seq::empty()
    } else if k == 1 {
        seq![t[0]]
    } else {
        interleaved(t, op, k - 1) + seq![op, t[k - 1]]
    }
}

/// The postfix stream a left-associative chain converts to: operands
/// first two at a time, then one operator after each further operand.
pub open spec fn chain_postfix(t: Seq<char>, op: char, k: int) -> Seq<char>
    decreases k,
{
    if k <= 0 {
        Seq::empty()
    } else if k == 1 {
        seq![t[0]]
    } else {
        chain_postfix(t, op, k - 1) + seq![t[k - 1], op]
    }
}

/// The converter reads only the prefix it is folded over.
pub proof fn lemma_pf_run_agree(s1: Seq<char>, s2: Seq<char>, n: int)
    requires
        0 <= n <= s1.len(),
        n <= s2.len(),
        forall|j: int| 0 <= j < n ==> s1[j] == s2[j],
    ensures
        pf_run(s1, n) == pf_run(s2, n),
    decreases n,
{
    if n > 0 {
        lemma_pf_run_agree(s1, s2, n - 1);
    }
}

/// The builder reads only the prefix it is folded over.
pub proof fn lemma_build_run_agree(s1: Seq<char>, s2: Seq<char>, n: int)
    requires
        0 <= n <= s1.len(),
        n <= s2.len(),
        forall|j: int| 0 <= j < n ==> s1[j] == s2[j],
    ensures
        build_run(s1, n) == build_run(s2, n),
    decreases n,
{
    if n > 0 {
        lemma_build_run_agree(s1, s2, n - 1);
    }
}

/// Converting a homogeneous chain: the output gathers the operands in
/// order with one operator popped back per join, and exactly one
/// operator waits on the stack.
pub proof fn lemma_chain_pf_run(t: Seq<char>, op: char, k: int)
    requires
        1 <= k <= t.len(),
        forall|j: int| 0 <= j < k ==> prec(#[trigger] t[j]) == 0,
        op == OR_CHAR || op == AND_CHAR,
    ensures
        pf_run(interleaved(t, op, k), interleaved(t, op, k).len() as int) == Ok::<
            (Seq<char>, Seq<char>),
            ParseError,
        >(
            (
                chain_postfix(t, op, k).subrange(
                    0,
                    chain_postfix(t, op, k).len() - (if k == 1 {
                        0int
                    } else {
                        1int
                    }),
                ),
                if k == 1 {
                    Seq::empty()
                } else {
                    seq![op]
                },
            ),
        ),
        interleaved(t, op, k).len() == 2 * k - 1,
        chain_postfix(t, op, k).len() == (if k == 1 {
            1int
        } else {
            2 * k - 1
        }),
    decreases k,
{
    let u = interleaved(t, op, k);
    let p = chain_postfix(t, op, k);
    if k == 1 {
        assert(u =~= seq![t[0]]);
        assert(pf_run(u, 0) == Ok::<(Seq<char>, Seq<char>), ParseError>(
            (Seq::empty(), Seq::empty()),
        ));
        assert(p.subrange(0, 1) =~= p);
        assert(Seq::<char>::empty().push(t[0]) =~= seq![t[0]]);
    } else {
        lemma_chain_pf_run(t, op, k - 1);
        let u0 = interleaved(t, op, k - 1);
        let p0 = chain_postfix(t, op, k - 1);
        let m = u0.len() as int;
        assert(u == u0 + seq![op, t[k - 1]]);
        assert(u.len() == m + 2);
        lemma_pf_run_agree(u, u0, m);
        let out0 = p0.subrange(0, p0.len() - (if k == 2 { 0int } else { 1int }));
        let st0: Seq<char> = if k == 2 { Seq::empty() } else { seq![op] };
        assert(pf_run(u, m) == Ok::<(Seq<char>, Seq<char>), ParseError>((out0, st0)));
        // The operator step pops an equal-ranked operator, then pushes.
        assert(u[m] == op);
        assert(prec(op) != 0 && op != LPAREN && op != RPAREN);
        let popped = pop_ops(out0, st0, op);
        if k == 2 {
            assert(popped == (out0, st0));
        } else {
            assert(st0[st0.len() - 1] == op);
            assert(st0.drop_last() =~= Seq::<char>::empty());
            assert(pop_ops(out0.push(op), Seq::<char>::empty(), op) == (
                out0.push(op),
                Seq::<char>::empty(),
            ));
            assert(popped == (out0.push(op), Seq::<char>::empty()));
        }
        assert(pf_run(u, m + 1) == pf_step(out0, st0, u[m]));
        let out1 = popped.0;
        assert(pf_run(u, m + 1) == Ok::<(Seq<char>, Seq<char>), ParseError>(
            (out1, Seq::<char>::empty().push(op)),
        ));
        // The operand step appends to the output.
        assert(u[m + 1] == t[k - 1]);
        assert(prec(t[k - 1]) == 0);
        assert(pf_run(u, m + 2) == Ok::<(Seq<char>, Seq<char>), ParseError>(
            (out1.push(t[k - 1]), Seq::<char>::empty().push(op)),
        ));
        assert(Seq::<char>::empty().push(op) =~= seq![op]);
        assert(p == p0 + seq![t[k - 1], op]);
        assert(p.len() == p0.len() + 2);
        assert(out1.push(t[k - 1]) =~= p.subrange(0, p.len() - 1));
    }
}

/// A homogeneous chain converts to its left-associative postfix.
pub proof fn lemma_chain_postfix(t: Seq<char>, op: char, k: int)
    requires
        1 <= k <= t.len(),
        forall|j: int| 0 <= j < k ==> prec(#[trigger] t[j]) == 0,
        op == OR_CHAR || op == AND_CHAR,
    ensures
        spec_to_postfix(interleaved(t, op, k)) == Ok::<Seq<char>, ParseError>(
            chain_postfix(t, op, k),
        ),
{
    lemma_chain_pf_run(t, op, k);
    let p = chain_postfix(t, op, k);
    if k == 1 {
        assert(p.subrange(0, 1) =~= p);
    } else {
        let out = p.subrange(0, p.len() - 1);
        assert(op != LPAREN);
        assert(seq![op].drop_last() =~= Seq::<char>::empty());
        assert(drain_stack(out, seq![op]) == drain_stack(out.push(op), Seq::<char>::empty()));
        assert(out.push(op) =~= p);
    }
}

/// Folding the builder over a chain's postfix leaves one left spine:
/// each operand past the first deepens the tree by one level.
pub proof fn lemma_chain_build(t: Seq<char>, op: char, k: int)
    requires
        1 <= k <= t.len(),
        forall|j: int| 0 <= j < k ==> prec(#[trigger] t[j]) == 0,
        op == OR_CHAR || op == AND_CHAR,
    ensures
        spec_create_tree(chain_postfix(t, op, k)) is Ok,
        depth_of(spec_create_tree(chain_postfix(t, op, k))->Ok_0) == k,
        leaves_of(spec_create_tree(chain_postfix(t, op, k))->Ok_0) == k,
    decreases k,
{
    let p = chain_postfix(t, op, k);
    lemma_chain_build_run(t, op, k);
    let st = build_run(p, p.len() as int)->Ok_0;
    assert(st.len() == 1);
}

/// The builder's stack while folding a chain's postfix: one tree of
/// depth equal to the operands consumed.
pub proof fn lemma_chain_build_run(t: Seq<char>, op: char, k: int)
    requires
        1 <= k <= t.len(),
        forall|j: int| 0 <= j < k ==> prec(#[trigger] t[j]) == 0,
        op == OR_CHAR || op == AND_CHAR,
    ensures
        build_run(chain_postfix(t, op, k), chain_postfix(t, op, k).len() as int) is Ok,
        build_run(chain_postfix(t, op, k), chain_postfix(t, op, k).len() as int)->Ok_0.len() == 1,
        depth_of(
            build_run(chain_postfix(t, op, k), chain_postfix(t, op, k).len() as int)->Ok_0[0],
        ) == k,
        leaves_of(
            build_run(chain_postfix(t, op, k), chain_postfix(t, op, k).len() as int)->Ok_0[0],
        ) == k,
    decreases k,
{
    let p = chain_postfix(t, op, k);
    if k == 1 {
        assert(p =~= seq![t[0]]);
        assert(build_run(p, 0) == Ok::<Seq<GateModel>, ParseError>(Seq::empty()));
        assert(prec(t[0]) == 0);
        let leaf = leaf_model(t[0]);
        assert(build_run(p, 1) == Ok::<Seq<GateModel>, ParseError>(Seq::empty().push(leaf)));
        assert(max_depth_of(leaf.inputs, 0) == 0);
        assert(depth_of(leaf) == 1);
        assert(leaves_of(leaf) == 1);
    } else {
        lemma_chain_build_run(t, op, k - 1);
        let p0 = chain_postfix(t, op, k - 1);
        let m = p0.len() as int;
        assert(p == p0 + seq![t[k - 1], op]);
        lemma_build_run_agree(p, p0, m);
        let st0 = build_run(p0, m)->Ok_0;
        let prev = st0[0];
        // The operand pushes a leaf.
        assert(p[m] == t[k - 1] && prec(t[k - 1]) == 0);
        let leaf = leaf_model(t[k - 1]);
        let st1 = st0.push(leaf);
        assert(build_run(p, m + 1) == Ok::<Seq<GateModel>, ParseError>(st1));
        // The operator joins the two into one gate.
        assert(p[m + 1] == op && prec(op) != 0);
        assert(st1.len() == 2);
        let ty = type_of_op(op);
        assert(arity_of(ty) == 2);
        let children = st1.subrange(0, 2);
        assert(children =~= st1);
        let node = GateModel { gate_type: ty, inputs: children, name: spec_gate_name(ty, children) };
        let st2 = st1.subrange(0, 0).push(node);
        assert(build_run(p, m + 2) == Ok::<Seq<GateModel>, ParseError>(st2));
        assert(st2.len() == 1 && st2[0] == node);
        // The new root is one level deeper than the previous spine.
        assert(children[0] == prev && children[1] == leaf);
        assert(max_depth_of(leaf.inputs, 0) == 0);
        assert(depth_of(leaf) == 1);
        assert(max_depth_of(children, 0) == 0);
        assert(max_depth_of(children, 1) == depth_of(prev));
        lemma_depth_pos(prev);
        assert(max_depth_of(children, 2) == depth_of(prev));
        assert(depth_of(node) == k);
        assert(leaves_of(leaf) == 1);
        assert(leaves_seq(children, 0) == 0);
        assert(leaves_seq(children, 1) == leaves_of(prev));
        assert(leaves_seq(children, 2) == leaves_of(prev) + 1);
        assert(leaves_of(node) == k);
    }
}


/// Text without whitespace passes the stripping phase unchanged.
pub proof fn lemma_stripped_identity(s: Seq<char>, n: int)
    requires
        0 <= n <= s.len(),
        forall|j: int| 0 <= j < s.len() ==> !is_space(#[trigger] s[j]),
    ensures
        stripped(s, n) == s.subrange(0, n),
    decreases n,
{
    if n > 0 {
        lemma_stripped_identity(s, n - 1);
        assert(stripped(s, n) =~= s.subrange(0, n));
    } else {
        assert(stripped(s, 0) =~= s.subrange(0, 0));
    }
}

/// Text none of whose adjacent pairs implies a conjunction passes the
/// AND-insertion phase unchanged.
pub proof fn lemma_and_inserted_identity(u: Seq<char>, n: int)
    requires
        0 <= n <= u.len(),
        forall|j: int| 0 <= j < u.len() - 1 ==> !needs_and(#[trigger] u[j], u[j + 1]),
    ensures
        and_inserted(u, n) == u.subrange(0, n),
    decreases n,
{
    if n > 0 {
        lemma_and_inserted_identity(u, n - 1);
        assert(and_inserted(u, n) =~= u.subrange(0, n));
    } else {
        assert(and_inserted(u, 0) =~= u.subrange(0, 0));
    }
}

/// A string of bare operands leaves the AND-insertion phase as those
/// operands joined by explicit AND tokens.
pub proof fn lemma_and_inserted_juxtaposition(t: Seq<char>, n: int)
    requires
        1 <= n <= t.len(),
        forall|j: int| 0 <= j < t.len() ==> prec(#[trigger] t[j]) == 0,
    ensures
        and_inserted(t, n) == interleaved(t, AND_CHAR, n) + (if n < t.len() {
            seq![AND_CHAR]
        } else {
            Seq::<char>::empty()
        }),
    decreases n,
{
    if n == 1 {
        assert(and_inserted(t, 0) =~= Seq::<char>::empty());
        assert(and_inserted(t, 1) =~= interleaved(t, AND_CHAR, 1) + (if 1 < t.len() {
            seq![AND_CHAR]
        } else {
            Seq::<char>::empty()
        }));
    } else {
        lemma_and_inserted_juxtaposition(t, n - 1);
        assert(needs_and(t[n - 2], t[n - 1]));
        assert(and_inserted(t, n) =~= interleaved(t, AND_CHAR, n) + (if n < t.len() {
            seq![AND_CHAR]
        } else {
            Seq::<char>::empty()
        }));
    }
}

/// Where each character of a homogeneous chain sits: operands at even
/// positions, the operator at odd ones.
pub proof fn lemma_interleaved_chars(t: Seq<char>, op: char, k: int)
    requires
        1 <= k <= t.len(),
    ensures
        interleaved(t, op, k).len() == 2 * k - 1,
        forall|j: int|
            0 <= j < 2 * k - 1 && j % 2 == 0 ==> #[trigger] interleaved(t, op, k)[j] == t[j / 2],
        forall|j: int|
            0 <= j < 2 * k - 1 && j % 2 == 1 ==> #[trigger] interleaved(t, op, k)[j] == op,
    decreases k,
{
    if k > 1 {
        lemma_interleaved_chars(t, op, k - 1);
    }
}

/// Law: `k` operands joined by OR compile to a left spine whose depth
/// is `k` — one level per operand, one more than the `k - 1` operator
/// applications — carrying one INPUT leaf per operand occurrence.
pub proof fn lemma_or_chain_shape(t: Seq<char>, k: int)
    requires
        1 <= k <= t.len(),
        forall|j: int|
            0 <= j < t.len() ==> prec(#[trigger] t[j]) == 0 && !is_space(t[j]),
    ensures
        spec_parse(interleaved(t, OR_CHAR, k)) is Ok,
        depth_of(spec_parse(interleaved(t, OR_CHAR, k))->Ok_0) == k,
        leaves_of(spec_parse(interleaved(t, OR_CHAR, k))->Ok_0) == k,
{
    let u = interleaved(t, OR_CHAR, k);
    lemma_interleaved_chars(t, OR_CHAR, k);
    assert forall|j: int| 0 <= j < u.len() implies !is_space(#[trigger] u[j]) by {
        if j % 2 == 0 {
            assert(u[j] == t[j / 2]);
        } else {
            assert(u[j] == OR_CHAR);
        }
    }
    lemma_stripped_identity(u, u.len() as int);
    assert(stripped(u, u.len() as int) =~= u);
    assert forall|j: int|
        0 <= j < u.len() - 1 implies !needs_and(#[trigger] u[j], u[j + 1]) by {
        if j % 2 == 0 {
            assert(u[j] == t[j / 2] && u[j + 1] == OR_CHAR);
        } else {
            assert(u[j] == OR_CHAR && u[j + 1] == t[(j + 1) / 2]);
        }
    }
    lemma_and_inserted_identity(u, u.len() as int);
    assert(and_inserted(u, u.len() as int) =~= u);
    lemma_chain_postfix(t, OR_CHAR, k);
    lemma_chain_build(t, OR_CHAR, k);
}

/// Law: `k` operands written side by side compile, through the
/// inserted AND tokens, to a left spine whose depth is `k` — one level
/// per operand, one more than the `k - 1` implied conjunctions —
/// carrying one INPUT leaf per operand occurrence.
pub proof fn lemma_juxtaposition_chain_shape(t: Seq<char>, k: int)
    requires
        1 <= k,
        t.len() == k,
        forall|j: int|
            0 <= j < t.len() ==> prec(#[trigger] t[j]) == 0 && !is_space(t[j]),
    ensures
        spec_parse(t) is Ok,
        depth_of(spec_parse(t)->Ok_0) == k,
        leaves_of(spec_parse(t)->Ok_0) == k,
{
    lemma_stripped_identity(t, k);
    assert(stripped(t, k) =~= t);
    lemma_and_inserted_juxtaposition(t, k);
    assert(and_inserted(t, k) =~= interleaved(t, AND_CHAR, k));
    lemma_chain_postfix(t, AND_CHAR, k);
    lemma_chain_build(t, AND_CHAR, k);
}

} // verus!
