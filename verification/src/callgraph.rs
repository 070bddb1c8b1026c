//! The call-graph parser: turns indentation-structured text into an ordered
//! component list, per-component function sets, and an ordered list of call
//! edges, using indentation depth as the call-nesting signal.

use vstd::prelude::*;

verus! {

use crate::text::string_from_chars;

/// The whitespace characters recognized by the parser: the characters with
/// the Unicode `White_Space` property, as `char::is_whitespace` reports it.
pub open spec fn is_ws_char(c: char) -> bool {
    c == ' ' || c == '\t' || c == '\n' || c == '\r' || c == '\u{b}' || c == '\u{c}'
        || c == '\u{85}' || c == '\u{a0}' || c == '\u{1680}' || c == '\u{2000}'
        || c == '\u{2001}' || c == '\u{2002}' || c == '\u{2003}' || c == '\u{2004}'
        || c == '\u{2005}' || c == '\u{2006}' || c == '\u{2007}' || c == '\u{2008}'
        || c == '\u{2009}' || c == '\u{200a}' || c == '\u{2028}' || c == '\u{2029}'
        || c == '\u{202f}' || c == '\u{205f}' || c == '\u{3000}'
}

/// Executable test for `is_ws_char`.
pub fn is_ws(c: char) -> (r: bool)
    ensures
        r == is_ws_char(c),
{
    c == ' ' || c == '\t' || c == '\n' || c == '\r' || c == '\u{b}' || c == '\u{c}'
        || c == '\u{85}' || c == '\u{a0}' || c == '\u{1680}' || c == '\u{2000}'
        || c == '\u{2001}' || c == '\u{2002}' || c == '\u{2003}' || c == '\u{2004}'
        || c == '\u{2005}' || c == '\u{2006}' || c == '\u{2007}' || c == '\u{2008}'
        || c == '\u{2009}' || c == '\u{200a}' || c == '\u{2028}' || c == '\u{2029}'
        || c == '\u{202f}' || c == '\u{205f}' || c == '\u{3000}'
}

/// Index of the first occurrence of `c` in `s`, or `s.len()` when absent.
pub open spec fn find_char(s: Seq<char>, c: char) -> int
    decreases s.len(),
{
    if s.len() == 0 {
        0
    } else if s[0] == c {
        0
    } else {
        1 + find_char(s.drop_first(), c)
    }
}

/// `find_char` returns the index of the first occurrence, or the length.
pub proof fn lemma_find_char(s: Seq<char>, c: char)
    ensures
        0 <= find_char(s, c) <= s.len(),
        find_char(s, c) < s.len() ==> s[find_char(s, c)] == c,
        forall|q: int| 0 <= q < find_char(s, c) ==> s[q] != c,
    decreases s.len(),
{
    if s.len() > 0 && s[0] != c {
        lemma_find_char(s.drop_first(), c);
        assert forall|q: int| 0 <= q < find_char(s, c) implies s[q] != c by {
            if q > 0 {
                assert(s.drop_first()[q - 1] == s[q]);
            }
        }
        if find_char(s, c) < s.len() {
            assert(s.drop_first()[find_char(s, c) - 1] == s[find_char(s, c)]);
        }
    }
}

/// Index of the first occurrence of the two-character separator `::` in `s`,
/// or `s.len()` when absent.
pub open spec fn find_sep(s: Seq<char>) -> int
    decreases s.len(),
{
    if s.len() < 2 {
        s.len() as int
    } else if s[0] == ':' && s[1] == ':' {
        0
    } else {
        1 + find_sep(s.drop_first())
    }
}

/// `find_sep` returns the index of the first `::`, or the length.
pub proof fn lemma_find_sep(s: Seq<char>)
    ensures
        0 <= find_sep(s) <= s.len(),
        find_sep(s) < s.len() ==> find_sep(s) + 1 < s.len() && s[find_sep(s)] == ':'
            && s[find_sep(s) + 1] == ':',
        forall|q: int|
            0 <= q < find_sep(s) && q + 1 < s.len() ==> !((#[trigger] s[q]) == ':' && s[q + 1]
                == ':'),
    decreases s.len(),
{
    if s.len() >= 2 && !(s[0] == ':' && s[1] == ':') {
        lemma_find_sep(s.drop_first());
        assert forall|q: int|
            0 <= q < find_sep(s) && q + 1 < s.len() implies !((#[trigger] s[q]) == ':' && s[q + 1]
            == ':') by {
            if q > 0 {
                assert(s.drop_first()[q - 1] == s[q]);
                assert(s.drop_first()[q] == s[q + 1]);
            }
        }
        if find_sep(s) < s.len() {
            let f = find_sep(s);
            assert(s.drop_first()[f - 1] == s[f]);
            assert(s.drop_first()[f] == s[f + 1]);
        }
    }
}

/// Index of the first non-whitespace character of `s`, or `s.len()` when
/// the line is empty or all whitespace.
pub open spec fn find_non_ws(s: Seq<char>) -> int
    decreases s.len(),
{
    if s.len() == 0 {
        0
    } else if !is_ws_char(s[0]) {
        0
    } else {
        1 + find_non_ws(s.drop_first())
    }
}

/// `find_non_ws` returns the index of the first non-whitespace character,
/// or the length.
pub proof fn lemma_find_non_ws(s: Seq<char>)
    ensures
        0 <= find_non_ws(s) <= s.len(),
        find_non_ws(s) < s.len() ==> !is_ws_char(s[find_non_ws(s)]),
        forall|q: int| 0 <= q < find_non_ws(s) ==> is_ws_char(s[q]),
    decreases s.len(),
{
    if s.len() > 0 && is_ws_char(s[0]) {
        lemma_find_non_ws(s.drop_first());
        assert forall|q: int| 0 <= q < find_non_ws(s) implies is_ws_char(s[q]) by {
            if q > 0 {
                assert(s.drop_first()[q - 1] == s[q]);
            }
        }
        if find_non_ws(s) < s.len() {
            assert(s.drop_first()[find_non_ws(s) - 1] == s[find_non_ws(s)]);
        }
    }
}

/// `s` with every whitespace character removed.
pub open spec fn strip_ws(s: Seq<char>) -> Seq<char> {
    s.filter(|c: char| !is_ws_char(c))
}

/// The text split at newlines: always at least one (possibly empty) line,
/// and one more line for every newline character.
pub open spec fn split_lines(text: Seq<char>) -> Seq<Seq<char>>
    decreases text.len(),
{
    let p = find_char(text, '\n');
    if 0 <= p < text.len() {
        seq![text.take(p)] + split_lines(text.skip(p + 1))
    } else {
        seq![text]
    }
}

/// The component-name candidate of one line: everything before the first
/// `::` (the whole line when there is none), with all whitespace stripped.
pub open spec fn line_component(l: Seq<char>) -> Seq<char> {
    strip_ws(l.take(vstd::math::min(find_sep(l), l.len() as int)))
}

/// The function-name candidate of one line: the segment between the first
/// `::` and the following `::` or the end of the line, with all whitespace
/// stripped; empty when the line has no separator.
pub open spec fn line_function(l: Seq<char>) -> Seq<char> {
    let p = find_sep(l);
    if p + 2 <= l.len() {
        let rest = l.skip(p + 2);
        strip_ws(rest.take(vstd::math::min(find_sep(rest), rest.len() as int)))
    } else {
        Seq::empty()
    }
}

/// The indentation depth of one line: the index of its first non-whitespace
/// character, or zero for an empty or all-whitespace line.
pub open spec fn line_depth(l: Seq<char>) -> int {
    if find_non_ws(l) < l.len() {
        find_non_ws(l)
    } else {
        0
    }
}

/// Copies `v[start..end]`.
fn subrange_vec(v: &Vec<char>, start: usize, end: usize) -> (r: Vec<char>)
    requires
        start <= end <= v@.len(),
    ensures
        r@ == v@.subrange(start as int, end as int),
{
    let mut r: Vec<char> = Vec::new();
    let mut i: usize = start;
    while i < end
        invariant
            start <= i <= end <= v@.len(),
            r@ == v@.subrange(start as int, i as int),
        decreases end - i,
    {
        r.push(v[i]);
        proof {
            assert(v@.subrange(start as int, i + 1) =~= v@.subrange(start as int, i as int).push(
                v@[i as int],
            ));
        }
        i = i + 1;
    }
    r
}

/// Removes all whitespace from `v[start..end]`.
fn strip_ws_range(v: &Vec<char>, start: usize, end: usize) -> (r: Vec<char>)
    requires
        start <= end <= v@.len(),
    ensures
        r@ == strip_ws(v@.subrange(start as int, end as int)),
{
    let mut r: Vec<char> = Vec::new();
    let mut i: usize = start;
    proof {
        assert(v@.subrange(start as int, start as int) =~= Seq::<char>::empty());
        reveal(Seq::filter);
    }
    while i < end
        invariant
            start <= i <= end <= v@.len(),
            r@ == strip_ws(v@.subrange(start as int, i as int)),
        decreases end - i,
    {
        let c = v[i];
        if !is_ws(c) {
            r.push(c);
        }
        proof {
            reveal(Seq::filter);
            let pred = |ch: char| !is_ws_char(ch);
            let prefix = v@.subrange(start as int, i as int);
            let next = v@.subrange(start as int, i + 1);
            assert(next =~= prefix.push(v@[i as int]));
            assert(next.drop_last() =~= prefix);
            assert(next.last() == v@[i as int]);
            assert(next.filter(pred) == if pred(v@[i as int]) {
                prefix.filter(pred).push(v@[i as int])
            } else {
                prefix.filter(pred)
            });
        }
        i = i + 1;
    }
    r
}

/// Index of the first `c` in `v` at or after `from`, or `v.len()` when
/// there is none; the result relates to `find_char` on the tail.
fn scan_char(v: &Vec<char>, from: usize, c: char) -> (p: usize)
    requires
        from <= v@.len(),
    ensures
        from <= p <= v@.len(),
        p - from == find_char(v@.skip(from as int), c),
{
    let mut p = from;
    while p < v.len() && v[p] != c
        invariant
            from <= p <= v@.len(),
            forall|q: int| from <= q < p ==> v@[q] != c,
        decreases v@.len() - p,
    {
        p = p + 1;
    }
    proof {
        let tail = v@.skip(from as int);
        lemma_find_char(tail, c);
        let f = find_char(tail, c);
        if f < p - from {
            assert(tail[f] == c);
            assert(tail[f] == v@[f + from]);
        }
        if f > p - from {
            assert(p < v@.len());
            assert(tail[p - from] == v@[p as int]);
        }
    }
    p
}

/// Index of the first `::` in `v[from..end]`, or `end` when there is none;
/// the result relates to `find_sep` on that slice.
fn scan_sep(v: &Vec<char>, from: usize, end: usize) -> (p: usize)
    requires
        from <= end <= v@.len(),
    ensures
        from <= p <= end,
        p - from == find_sep(v@.subrange(from as int, end as int)),
{
    let mut p = from;
    while p < end && p + 1 < end && !(v[p] == ':' && v[p + 1] == ':')
        invariant
            from <= p <= end <= v@.len(),
            forall|q: int|
                from <= q < p && q + 1 < end ==> !((#[trigger] v@[q]) == ':' && v@[q + 1] == ':'),
        decreases end - p,
    {
        p = p + 1;
    }
    let found = p < end && p + 1 < end;
    let r = if found {
        p
    } else {
        end
    };
    proof {
        let l = v@.subrange(from as int, end as int);
        lemma_find_sep(l);
        let f = find_sep(l);
        assert(forall|q: int| 0 <= q < l.len() ==> l[q] == v@[from + q]);
        if found {
            assert(v@[p as int] == ':' && v@[p + 1] == ':');
            assert(l[p - from] == ':' && l[p - from + 1] == ':');
            if f < p - from {
                assert(l[f] == ':' && l[f + 1] == ':');
                assert(v@[from + f] == ':' && v@[from + f + 1] == ':');
            }
            if f > p - from {
                assert(!(l[p - from] == ':' && l[p - from + 1] == ':'));
            }
            assert(f == p - from);
        } else {
            if f < end - from {
                assert(l[f] == ':' && l[f + 1] == ':');
                assert(v@[from + f] == ':' && v@[from + f + 1] == ':');
                assert(from + f < p || from + f >= p);
            }
            assert(f == end - from);
        }
    }
    r
}

/// Index of the first non-whitespace character of `v[from..end]`, or `end`;
/// the result relates to `find_non_ws` on that slice.
fn scan_non_ws(v: &Vec<char>, from: usize, end: usize) -> (p: usize)
    requires
        from <= end <= v@.len(),
    ensures
        from <= p <= end,
        p - from == find_non_ws(v@.subrange(from as int, end as int)),
{
    let mut p = from;
    while p < end && is_ws(v[p])
        invariant
            from <= p <= end <= v@.len(),
            forall|q: int| from <= q < p ==> is_ws_char(#[trigger] v@[q]),
        decreases end - p,
    {
        p = p + 1;
    }
    proof {
        let l = v@.subrange(from as int, end as int);
        lemma_find_non_ws(l);
        let f = find_non_ws(l);
        assert(forall|q: int| 0 <= q < l.len() ==> l[q] == v@[from + q]);
        if f < p - from {
            assert(!is_ws_char(l[f]));
            assert(l[f] == v@[from + f]);
        }
        if f > p - from {
            assert(p < end);
            assert(l[p - from] == v@[p as int]);
        }
    }
    p
}

/// The parser's full state after some prefix of the input lines: the data
/// model built so far plus the transient call-stack bookkeeping.
pub ghost struct ParseState {
    /// Distinct non-empty component names, in order of first appearance.
    pub order: Seq<Seq<char>>,
    /// One entry per component name seen (the empty name included), holding
    /// the function names recorded for it, each exactly once.
    pub funcs: Seq<(Seq<char>, Seq<Seq<char>>)>,
    /// Call edges `(caller, callee component, callee function)` in textual
    /// order.
    pub edges: Seq<(Seq<char>, Seq<char>, Seq<char>)>,
    /// The call-nesting stack of `(component, depth)` frames.
    pub stack: Seq<(Seq<char>, int)>,
    /// The previous line's component.
    pub last_component: Seq<char>,
    /// The previous line's depth.
    pub last_depth: int,
}

/// There is an entry for key `k` in the component table.
pub open spec fn funcs_contains_key(fs: Seq<(Seq<char>, Seq<Seq<char>>)>, k: Seq<char>) -> bool {
    exists|i: int| 0 <= i < fs.len() && (#[trigger] fs[i]).0 == k
}

/// The index of the entry with key `k`.
pub open spec fn funcs_key_index(fs: Seq<(Seq<char>, Seq<Seq<char>>)>, k: Seq<char>) -> int {
    choose|i: int| 0 <= i < fs.len() && (#[trigger] fs[i]).0 == k
}

/// All entry keys are distinct.
pub open spec fn funcs_keys_unique(fs: Seq<(Seq<char>, Seq<Seq<char>>)>) -> bool {
    forall|i: int, j: int|
        0 <= i < j < fs.len() ==> (#[trigger] fs[i]).0 != (#[trigger] fs[j]).0
}

/// The component table after recording one line's component and function
/// candidates: a new entry for an unseen component, and the function name
/// appended (when non-empty and not yet recorded) to the component's entry —
/// each entry keeps a set of function names, so repeating a record is a
/// no-op.
pub open spec fn register_funcs(
    fs: Seq<(Seq<char>, Seq<Seq<char>>)>,
    comp: Seq<char>,
    func: Seq<char>,
) -> Seq<(Seq<char>, Seq<Seq<char>>)> {
    if !funcs_contains_key(fs, comp) {
        fs.push((comp, if func.len() > 0 { seq![func] } else { Seq::empty() }))
    } else {
        let i = funcs_key_index(fs, comp);
        if func.len() > 0 && !fs[i].1.contains(func) {
            fs.update(i, (comp, fs[i].1.push(func)))
        } else {
            fs
        }
    }
}

/// The ordered component list after one line: a non-empty component not yet
/// in the table is appended.
pub open spec fn register_order(
    order: Seq<Seq<char>>,
    fs: Seq<(Seq<char>, Seq<Seq<char>>)>,
    comp: Seq<char>,
) -> Seq<Seq<char>> {
    if comp.len() > 0 && !funcs_contains_key(fs, comp) {
        order.push(comp)
    } else {
        order
    }
}

/// One step of the parser on one line: record the component and function,
/// push or pop the call stack by the depth comparison, and record a call
/// edge when both the component and the function are non-empty, with the
/// top-of-stack component (or the empty name) as the caller.
pub open spec fn parse_step(st: ParseState, l: Seq<char>) -> ParseState {
    let comp = line_component(l);
    let func = line_function(l);
    let depth = line_depth(l);
    let order1 = register_order(st.order, st.funcs, comp);
    let funcs1 = register_funcs(st.funcs, comp, func);
    let stack1 = if depth > st.last_depth && st.last_component.len() > 0 {
        st.stack.push((st.last_component, st.last_depth))
    } else if depth < st.last_depth && st.stack.len() > 0 {
        st.stack.drop_last()
    } else {
        st.stack
    };
    let caller = if stack1.len() > 0 {
        stack1.last().0
    } else {
        Seq::empty()
    };
    let edges1 = if comp.len() > 0 && func.len() > 0 {
        st.edges.push((caller, comp, func))
    } else {
        st.edges
    };
    ParseState {
        order: order1,
        funcs: funcs1,
        edges: edges1,
        stack: stack1,
        last_component: comp,
        last_depth: depth,
    }
}

/// The parser folded over a sequence of lines.
pub open spec fn parse_lines(st: ParseState, lines: Seq<Seq<char>>) -> ParseState
    decreases lines.len(),
{
    if lines.len() == 0 {
        st
    } else {
        parse_lines(parse_step(st, lines[0]), lines.drop_first())
    }
}

/// The parser's starting state: everything empty, depth zero.
pub open spec fn initial_state() -> ParseState {
    ParseState {
        order: Seq::empty(),
        funcs: Seq::empty(),
        edges: Seq::empty(),
        stack: Seq::empty(),
        last_component: Seq::empty(),
        last_depth: 0,
    }
}

/// The parse of a whole text: the fold of `parse_step` over its lines.
pub open spec fn parse(text: Seq<char>) -> ParseState {
    parse_lines(initial_state(), split_lines(text))
}

/// Folding one more line at the end applies one more step.
pub proof fn lemma_parse_lines_push(st: ParseState, lines: Seq<Seq<char>>, l: Seq<char>)
    ensures
        parse_lines(st, lines.push(l)) == parse_step(parse_lines(st, lines), l),
    decreases lines.len(),
{
    let pushed = lines.push(l);
    if lines.len() == 0 {
        assert(pushed[0] == l);
        assert(pushed.drop_first() =~= Seq::<Seq<char>>::empty());
        assert(parse_lines(st, pushed) == parse_lines(parse_step(st, l), pushed.drop_first()));
        assert(parse_lines(parse_step(st, l), pushed.drop_first()) == parse_step(st, l));
        assert(parse_lines(st, lines) == st);
    } else {
        assert(pushed[0] == lines[0]);
        assert(pushed.drop_first() =~= lines.drop_first().push(l));
        lemma_parse_lines_push(parse_step(st, lines[0]), lines.drop_first(), l);
        assert(parse_lines(st, pushed) == parse_lines(parse_step(st, lines[0]),
            pushed.drop_first()));
        assert(parse_lines(parse_step(st, lines[0]), lines.drop_first().push(l)) == parse_step(
            parse_lines(parse_step(st, lines[0]), lines.drop_first()),
            l,
        ));
        assert(parse_lines(st, lines) == parse_lines(parse_step(st, lines[0]),
            lines.drop_first()));
    }
}

/// A call edge: a caller component (possibly empty, for a top-level call)
/// and the component and function being called.
pub struct FunctionCall {
    /// The component the call is made from; empty for an external caller.
    pub caller: String,
    /// The component whose function is called.
    pub component: String,
    /// The function being called.
    pub function: String,
}

impl View for FunctionCall {
    type V = (Seq<char>, Seq<char>, Seq<char>);

    open spec fn view(&self) -> (Seq<char>, Seq<char>, Seq<char>) {
        (self.caller@, self.component@, self.function@)
    }
}

/// One component together with the function names recorded for it.
pub struct ComponentFunctions {
    /// The component's name.
    pub name: String,
    /// The function names recorded for the component, each exactly once.
    pub functions: Vec<String>,
}

impl View for ComponentFunctions {
    type V = (Seq<char>, Seq<Seq<char>>);

    open spec fn view(&self) -> (Seq<char>, Seq<Seq<char>>) {
        (self.name@, self.functions.deep_view())
    }
}

/// The structured call-graph model parsed from the input text.
pub struct CallGraph {
    /// One entry per component name seen, with its function names.
    pub components: Vec<ComponentFunctions>,
    /// Distinct non-empty component names in order of first appearance.
    pub components_in_order: Vec<String>,
    /// The call edges in textual order.
    pub func_calls: Vec<FunctionCall>,
}

impl CallGraph {
    /// The ordered component list, as sequences of characters.
    pub open spec fn order_view(&self) -> Seq<Seq<char>> {
        self.components_in_order.deep_view()
    }

    /// The component table, as an association sequence.
    pub open spec fn funcs_view(&self) -> Seq<(Seq<char>, Seq<Seq<char>>)> {
        self.components@.map_values(|c: ComponentFunctions| c@)
    }

    /// The call-edge list, as triples of character sequences.
    pub open spec fn edges_view(&self) -> Seq<(Seq<char>, Seq<char>, Seq<char>)> {
        self.func_calls@.map_values(|f: FunctionCall| f@)
    }

    /// Records one line's component and function candidates in the
    /// component table and the ordered component list.
    fn add_component_func(&mut self, component: &String, func: &String)
        requires
            funcs_keys_unique(old(self).funcs_view()),
        ensures
            final(self).funcs_view() == register_funcs(
                old(self).funcs_view(),
                component@,
                func@,
            ),
            final(self).order_view() == register_order(
                old(self).order_view(),
                old(self).funcs_view(),
                component@,
            ),
            final(self).edges_view() == old(self).edges_view(),
            funcs_keys_unique(final(self).funcs_view()),
    {
        let ghost fs0 = self.funcs_view();
        let n = self.components.len();
        let mut found = false;
        let mut at: usize = 0;
        let mut idx: usize = 0;
        while idx < n
            invariant
                *self == *old(self),
                n == self.components@.len(),
                idx <= n,
                !found ==> forall|k: int|
                    0 <= k < idx ==> (#[trigger] self.funcs_view()[k]).0 != component@,
                found ==> at < idx && self.funcs_view()[at as int].0 == component@,
            decreases n - idx,
        {
            if !found {
                let entry_name = &self.components[idx].name;
                proof {
                    assert(self.funcs_view()[idx as int] == self.components@[idx as int]@);
                }
                if *entry_name == *component {
                    found = true;
                    at = idx;
                }
            }
            idx = idx + 1;
        }
        proof {
            if found {
                assert(funcs_contains_key(fs0, component@));
            } else {
                assert(!funcs_contains_key(fs0, component@)) by {
                    if funcs_contains_key(fs0, component@) {
                        let i = choose|i: int|
                            0 <= i < fs0.len() && (#[trigger] fs0[i]).0 == component@;
                        assert(fs0[i].0 != component@);
                    }
                }
            }
        }
        if !found {
            if !component.as_str().is_empty() {
                self.components_in_order.push(component.clone());
            }
            let mut fv: Vec<String> = Vec::new();
            if !func.as_str().is_empty() {
                fv.push(func.clone());
            }
            self.components.push(ComponentFunctions { name: component.clone(), functions: fv });
            proof {
                assert(fv.deep_view() =~= if func@.len() > 0 {
                    seq![func@]
                } else {
                    Seq::<Seq<char>>::empty()
                });
                assert(self.funcs_view() =~= register_funcs(fs0, component@, func@));
                assert(self.order_view() =~= register_order(
                    old(self).order_view(),
                    fs0,
                    component@,
                ));
                assert(self.edges_view() =~= old(self).edges_view());
            }
        } else {
            let fcount = self.components[at].functions.len();
            let mut already = false;
            let mut k: usize = 0;
            while k < fcount
                invariant
                    *self == *old(self),
                    at < self.components@.len(),
                    fcount == self.components@[at as int].functions@.len(),
                    fs0 == self.funcs_view(),
                    fs0[at as int] == self.components@[at as int]@,
                    k <= fcount,
                    !already ==> forall|q: int|
                        0 <= q < k ==> #[trigger] fs0[at as int].1[q] != func@,
                    already ==> fs0[at as int].1.contains(func@),
                decreases fcount - k,
            {
                proof {
                    assert(fs0[at as int].1[k as int] == self.components@[
                        at as int
                    ].functions@[k as int]@);
                }
                if !already {
                    let existing: &String = &self.components[at].functions[k];
                    if *existing == *func {
                        already = true;
                    }
                }
                k = k + 1;
            }
            proof {
                if !already {
                    assert(!fs0[at as int].1.contains(func@)) by {
                        if fs0[at as int].1.contains(func@) {
                            let q = choose|q: int|
                                0 <= q < fs0[at as int].1.len() && fs0[at as int].1[q] == func@;
                            assert(fs0[at as int].1[q] != func@);
                        }
                    }
                }
            }
            if !func.as_str().is_empty() && !already {
                let entry = &mut self.components[at];
                entry.functions.push(func.clone());
            }
            proof {
                let i = funcs_key_index(fs0, component@);
                assert(0 <= i < fs0.len() && fs0[i].0 == component@);
                assert(i == at) by {
                    if i != at {
                        assert(fs0[i].0 != fs0[at as int].0);
                    }
                }
                if func@.len() > 0 && !fs0[at as int].1.contains(func@) {
                    assert(self.components@[at as int].functions.deep_view() =~= fs0[
                        at as int
                    ].1.push(func@));
                    assert(self.funcs_view() =~= fs0.update(
                        at as int,
                        (component@, fs0[at as int].1.push(func@)),
                    ));
                } else {
                    assert(self.funcs_view() =~= fs0);
                }
                assert(self.order_view() =~= register_order(
                    old(self).order_view(),
                    fs0,
                    component@,
                ));
                assert(self.edges_view() =~= old(self).edges_view());
            }
        }
    }
}

/// The parse of the first `n` lines.
pub open spec fn prefix_state(lines: Seq<Seq<char>>, n: int) -> ParseState {
    parse_lines(initial_state(), lines.take(n))
}

/// The view of one call-stack frame.
pub open spec fn frame_view(e: (String, usize)) -> (Seq<char>, int) {
    (e.0@, e.1 as int)
}

impl CallGraph {
    /// Processes the call-graph text line by line and builds the model: the
    /// resulting component list, component table and edge list are exactly
    /// those of the specification-level parse of the text.
    pub fn new(callgraph: &str) -> (r: CallGraph)
        ensures
            r.order_view() == parse(callgraph@).order,
            r.funcs_view() == parse(callgraph@).funcs,
            r.edges_view() == parse(callgraph@).edges,
            funcs_keys_unique(r.funcs_view()),
    {
        let chars = crate::text::chars_of(callgraph);
        let ghost text = callgraph@;
        let ghost lines = split_lines(text);
        let mut graph = CallGraph {
            components: Vec::new(),
            components_in_order: Vec::new(),
            func_calls: Vec::new(),
        };
        let mut function_stack: Vec<(String, usize)> = Vec::new();
        let mut last_component = String::new();
        let mut last_depth: usize = 0;
        let mut pos: usize = 0;
        let ghost mut n: int = 0;
        let mut done = false;
        proof {
            assert(lines.take(0) =~= Seq::<Seq<char>>::empty());
            assert(prefix_state(lines, 0) == initial_state());
            assert(graph.order_view() =~= Seq::<Seq<char>>::empty());
            assert(graph.funcs_view() =~= Seq::<(Seq<char>, Seq<Seq<char>>)>::empty());
            assert(graph.edges_view() =~= Seq::<(Seq<char>, Seq<char>, Seq<char>)>::empty());
            assert(function_stack@.map_values(|e: (String, usize)| frame_view(e))
                =~= Seq::<(Seq<char>, int)>::empty());
            assert(text.skip(0) =~= text);
            assert(lines.skip(0) =~= lines);
        }
        while !done
            invariant
                chars@ == text,
                text == callgraph@,
                lines == split_lines(text),
                0 <= n <= lines.len(),
                pos <= text.len(),
                funcs_keys_unique(graph.funcs_view()),
                graph.order_view() == prefix_state(lines, n).order,
                graph.funcs_view() == prefix_state(lines, n).funcs,
                graph.edges_view() == prefix_state(lines, n).edges,
                function_stack@.map_values(|e: (String, usize)| frame_view(e)) == prefix_state(
                    lines,
                    n,
                ).stack,
                last_component@ == prefix_state(lines, n).last_component,
                last_depth as int == prefix_state(lines, n).last_depth,
                !done ==> n < lines.len() && split_lines(text.skip(pos as int)) == lines.skip(n),
                done ==> n == lines.len(),
            decreases text.len() - pos, (if done { 0int } else { 1int }),
        {
            let ghost tail = text.skip(pos as int);
            let ghost f = find_char(tail, '\n');
            let ghost l = lines[n];
            proof {
                lemma_find_char(tail, '\n');
                assert(lines.skip(n)[0] == lines[n]);
            }
            let nl = scan_char(&chars, pos, '\n');
            let line = subrange_vec(&chars, pos, nl);
            proof {
                if f < tail.len() {
                    assert(split_lines(tail) == seq![tail.take(f)] + split_lines(
                        tail.skip(f + 1),
                    ));
                    assert(split_lines(tail)[0] == tail.take(f));
                    assert(line@ =~= tail.take(f));
                } else {
                    assert(split_lines(tail) == seq![tail]);
                    assert(split_lines(tail)[0] == tail);
                    assert(line@ =~= tail);
                }
                assert(line@ == l);
            }
            let line_len = line.len();
            let sep = scan_sep(&line, 0, line_len);
            proof {
                assert(line@.subrange(0, line_len as int) =~= line@);
                lemma_find_sep(l);
            }
            let comp_chars = strip_ws_range(&line, 0, sep);
            proof {
                assert(line@.subrange(0, sep as int) =~= l.take(
                    vstd::math::min(find_sep(l), l.len() as int),
                ));
                assert(comp_chars@ == line_component(l));
            }
            let func_chars = if sep < line_len {
                let sep2 = scan_sep(&line, sep + 2, line_len);
                let fc = strip_ws_range(&line, sep + 2, sep2);
                proof {
                    let rest = l.skip(sep + 2);
                    assert(line@.subrange(sep + 2, line_len as int) =~= rest);
                    let f2 = find_sep(rest);
                    lemma_find_sep(rest);
                    assert(sep2 - (sep + 2) == f2);
                    assert(line@.subrange(sep + 2, sep2 as int) =~= rest.take(
                        vstd::math::min(f2, rest.len() as int),
                    ));
                    assert(fc@ == line_function(l));
                }
                fc
            } else {
                let fc: Vec<char> = Vec::new();
                proof {
                    assert(find_sep(l) + 2 > l.len());
                    assert(fc@ =~= line_function(l));
                }
                fc
            };
            let dp = scan_non_ws(&line, 0, line_len);
            let depth = if dp < line_len {
                dp
            } else {
                0
            };
            proof {
                assert(line@.subrange(0, line_len as int) =~= line@);
                assert(depth as int == line_depth(l));
            }
            let comp = string_from_chars(&comp_chars);
            let func = string_from_chars(&func_chars);
            let ghost st = prefix_state(lines, n);

            graph.add_component_func(&comp, &func);

            if depth > last_depth && !last_component.as_str().is_empty() {
                function_stack.push((last_component, last_depth));
                proof {
                    assert(function_stack@.map_values(|e: (String, usize)| frame_view(e))
                        =~= st.stack.push((st.last_component, st.last_depth)));
                }
            } else if depth < last_depth {
                let ghost sv0 = function_stack@.map_values(
                    |e: (String, usize)| frame_view(e),
                );
                function_stack.pop();
                proof {
                    if sv0.len() > 0 {
                        assert(function_stack@.map_values(|e: (String, usize)| frame_view(e))
                            =~= sv0.drop_last());
                    } else {
                        assert(function_stack@.map_values(|e: (String, usize)| frame_view(e))
                            =~= sv0);
                    }
                }
            }
            let ghost stack1 = function_stack@.map_values(|e: (String, usize)| frame_view(e));

            let caller: String = if function_stack.len() > 0 {
                let idx2 = function_stack.len() - 1;
                let c = function_stack[idx2].0.clone();
                proof {
                    assert(stack1[idx2 as int] == frame_view(function_stack@[idx2 as int]));
                    assert(c@ == stack1.last().0);
                }
                c
            } else {
                let c = String::new();
                proof {
                    assert(c@ =~= Seq::<char>::empty());
                }
                c
            };
            let ghost caller_v = caller@;

            if !comp.as_str().is_empty() && !func.as_str().is_empty() {
                let edge = FunctionCall {
                    caller,
                    component: comp.clone(),
                    function: func.clone(),
                };
                proof {
                    assert(edge@ == (caller_v, comp@, func@));
                }
                graph.func_calls.push(edge);
                proof {
                    assert(graph.edges_view() =~= st.edges.push((caller_v, comp@, func@)));
                }
            }

            last_component = comp;
            last_depth = depth;

            proof {
                lemma_parse_lines_push(initial_state(), lines.take(n), l);
                assert(lines.take(n + 1) =~= lines.take(n).push(l));
                let st1 = prefix_state(lines, n + 1);
                assert(st1 == parse_step(st, l));
                assert(graph.funcs_view() == st1.funcs);
                assert(graph.order_view() == st1.order);
                assert(stack1 == st1.stack);
                assert(graph.edges_view() == st1.edges);
                assert(last_component@ == st1.last_component);
                assert(last_depth as int == st1.last_depth);
                n = n + 1;
            }
            if nl < chars.len() {
                pos = nl + 1;
                proof {
                    assert(f < tail.len());
                    assert(tail.skip(f + 1) =~= text.skip(pos as int));
                    assert(lines.skip(n - 1).drop_first() =~= lines.skip(n));
                    assert((seq![l] + split_lines(tail.skip(f + 1))).drop_first()
                        =~= split_lines(tail.skip(f + 1)));
                    assert(split_lines(text.skip(pos as int)) == lines.skip(n));
                    assert(split_lines(text.skip(pos as int)).len() >= 1);
                    assert(lines.skip(n).len() >= 1);
                }
            } else {
                done = true;
                proof {
                    assert(f >= tail.len());
                    assert(lines.skip(n - 1) =~= seq![l]);
                    assert(n == lines.len());
                }
            }
        }
        proof {
            assert(lines.take(lines.len() as int) =~= lines);
        }
        graph
    }
}

/// The structural facts that every parsed model satisfies: the ordered
/// component list holds distinct non-empty names; the component table's
/// non-empty keys are exactly the listed components; every stack frame and
/// every edge refers back to a listed component (edges' callers may also be
/// the empty, external caller); and edges carry non-empty function names.
pub open spec fn model_inv(st: ParseState) -> bool {
    &&& forall|i: int| 0 <= i < st.order.len() ==> (#[trigger] st.order[i]).len() > 0
    &&& forall|i: int, j: int|
        0 <= i < j < st.order.len() ==> (#[trigger] st.order[i]) != (#[trigger] st.order[j])
    &&& funcs_keys_unique(st.funcs)
    &&& forall|i: int|
        0 <= i < st.funcs.len() && (#[trigger] st.funcs[i]).0.len() > 0 ==> st.order.contains(
            st.funcs[i].0,
        )
    &&& forall|i: int|
        0 <= i < st.order.len() ==> funcs_contains_key(st.funcs, #[trigger] st.order[i])
    &&& forall|i: int|
        0 <= i < st.stack.len() ==> (#[trigger] st.stack[i]).0.len() > 0 && st.order.contains(
            st.stack[i].0,
        )
    &&& (st.last_component.len() == 0 || st.order.contains(st.last_component))
    &&& forall|i: int|
        0 <= i < st.edges.len() ==> {
            &&& (#[trigger] st.edges[i]).1.len() > 0
            &&& st.edges[i].2.len() > 0
            &&& st.order.contains(st.edges[i].1)
            &&& (st.edges[i].0.len() == 0 || st.order.contains(st.edges[i].0))
        }
}

proof fn lemma_push_preserves_contains(s: Seq<Seq<char>>, x: Seq<char>, y: Seq<char>)
    requires
        s.contains(y),
    ensures
        s.push(x).contains(y),
{
    let i = choose|i: int| 0 <= i < s.len() && s[i] == y;
    assert(s.push(x)[i] == y);
}

proof fn lemma_step_preserves_inv(st: ParseState, l: Seq<char>)
    requires
        model_inv(st),
    ensures
        model_inv(parse_step(st, l)),
{
    let comp = line_component(l);
    let func = line_function(l);
    let st1 = parse_step(st, l);
    let order1 = st1.order;

    // The ordered list stays distinct and non-empty, and keeps its members.
    if comp.len() > 0 && !funcs_contains_key(st.funcs, comp) {
        assert(order1 == st.order.push(comp));
        assert(!st.order.contains(comp));
        assert(forall|i: int| 0 <= i < st.order.len() ==> order1[i] == st.order[i]);
        assert(order1[st.order.len() as int] == comp);
        assert forall|i: int, j: int| 0 <= i < j < order1.len() implies (#[trigger] order1[i])
            != (#[trigger] order1[j]) by {
            if j < st.order.len() {
            } else {
                assert(order1[j] == comp);
                assert(st.order[i] == order1[i]);
                if st.order.contains(order1[i]) && order1[i] == comp {
                    assert(false);
                }
                assert(st.order.contains(st.order[i]));
            }
        }
    } else {
        assert(order1 == st.order);
    }
    assert forall|y: Seq<char>| st.order.contains(y) implies order1.contains(y) by {
        if order1 != st.order {
            lemma_push_preserves_contains(st.order, comp, y);
        }
    }

    // The table's non-empty keys remain exactly the listed components.
    let funcs1 = st1.funcs;
    assert forall|i: int|
        0 <= i < funcs1.len() && (#[trigger] funcs1[i]).0.len() > 0 implies order1.contains(
        funcs1[i].0,
    ) by {
        if !funcs_contains_key(st.funcs, comp) {
            assert(funcs1 == st.funcs.push(
                (comp, if func.len() > 0 { seq![func] } else { Seq::empty() }),
            ));
            if i < st.funcs.len() {
                assert(funcs1[i] == st.funcs[i]);
            } else {
                assert(funcs1[i].0 == comp);
                assert(comp.len() > 0 ==> order1.contains(comp)) by {
                    if comp.len() > 0 {
                        assert(order1[order1.len() - 1] == comp);
                    }
                }
            }
        } else if func.len() > 0 {
            let k = funcs_key_index(st.funcs, comp);
            if i == k {
                assert(funcs1[i].0 == comp);
                assert(st.funcs[k].0 == comp);
            } else {
                assert(funcs1[i] == st.funcs[i]);
            }
        } else {
            assert(funcs1[i] == st.funcs[i]);
        }
    }
    assert forall|i: int| 0 <= i < order1.len() implies funcs_contains_key(
        funcs1,
        #[trigger] order1[i],
    ) by {
        if i < st.order.len() {
            let k = funcs_key_index(st.funcs, st.order[i]);
            assert(0 <= k < st.funcs.len() && st.funcs[k].0 == st.order[i]);
            assert(funcs1[k].0 == st.order[i]);
        } else {
            assert(order1[i] == comp);
            assert(funcs1[funcs1.len() - 1].0 == comp);
        }
    }

    // Key uniqueness.
    assert(funcs_keys_unique(funcs1)) by {
        if !funcs_contains_key(st.funcs, comp) {
            assert forall|i: int, j: int| 0 <= i < j < funcs1.len() implies (#[trigger] funcs1[
                i
            ]).0 != (#[trigger] funcs1[j]).0 by {
                if j < st.funcs.len() {
                } else {
                    assert(funcs1[j].0 == comp);
                    assert(funcs1[i] == st.funcs[i]);
                }
            }
        } else if func.len() > 0 {
            let k = funcs_key_index(st.funcs, comp);
            assert forall|i: int, j: int| 0 <= i < j < funcs1.len() implies (#[trigger] funcs1[
                i
            ]).0 != (#[trigger] funcs1[j]).0 by {
                assert(funcs1[i].0 == st.funcs[i].0);
                assert(funcs1[j].0 == st.funcs[j].0);
            }
        }
    }

    // Stack frames still point at listed components.
    let stack1 = st1.stack;
    assert forall|i: int| 0 <= i < stack1.len() implies (#[trigger] stack1[i]).0.len() > 0
        && order1.contains(stack1[i].0) by {
        if stack1 == st.stack.push((st.last_component, st.last_depth)) && i == stack1.len() - 1
            && st.stack.len() == stack1.len() - 1 {
            assert(stack1[i].0 == st.last_component);
        } else {
            assert(stack1[i] == st.stack[i]);
        }
    }

    // The previous-line component.
    if comp.len() > 0 {
        if !funcs_contains_key(st.funcs, comp) {
            assert(order1[order1.len() - 1] == comp);
            assert(order1.contains(comp));
        } else {
            let k = funcs_key_index(st.funcs, comp);
            assert(st.funcs[k].0 == comp && st.funcs[k].0.len() > 0);
            assert(st.order.contains(comp));
        }
    }

    // Edges.
    let edges1 = st1.edges;
    assert forall|i: int| 0 <= i < edges1.len() implies {
        &&& (#[trigger] edges1[i]).1.len() > 0
        &&& edges1[i].2.len() > 0
        &&& order1.contains(edges1[i].1)
        &&& (edges1[i].0.len() == 0 || order1.contains(edges1[i].0))
    } by {
        if i < st.edges.len() {
            assert(edges1[i] == st.edges[i]);
        } else {
            assert(comp.len() > 0 && func.len() > 0);
            assert(edges1[i] == (if stack1.len() > 0 {
                stack1.last().0
            } else {
                Seq::<char>::empty()
            }, comp, func));
            if stack1.len() > 0 {
                assert(stack1[stack1.len() - 1].0.len() > 0);
            }
        }
    }
}

proof fn lemma_parse_lines_inv(st: ParseState, lines: Seq<Seq<char>>)
    requires
        model_inv(st),
    ensures
        model_inv(parse_lines(st, lines)),
    decreases lines.len(),
{
    if lines.len() > 0 {
        lemma_step_preserves_inv(st, lines[0]);
        lemma_parse_lines_inv(parse_step(st, lines[0]), lines.drop_first());
    }
}

/// Every parsed model is well-formed: distinct non-empty components, edges
/// that refer back to listed components with non-empty function names, and
/// callers that are listed components or the external empty name.
pub proof fn lemma_parse_inv(text: Seq<char>)
    ensures
        model_inv(parse(text)),
{
    lemma_parse_lines_inv(initial_state(), split_lines(text));
}

/// Index of the first occurrence of `c` in `cs`, or `cs.len()` when absent.
pub open spec fn first_occurrence(cs: Seq<Seq<char>>, c: Seq<char>) -> int
    decreases cs.len(),
{
    if cs.len() == 0 {
        0
    } else if cs[0] == c {
        0
    } else {
        1 + first_occurrence(cs.drop_first(), c)
    }
}

proof fn lemma_first_occurrence(cs: Seq<Seq<char>>, c: Seq<char>)
    ensures
        0 <= first_occurrence(cs, c) <= cs.len(),
        first_occurrence(cs, c) < cs.len() ==> cs[first_occurrence(cs, c)] == c,
        forall|q: int| 0 <= q < first_occurrence(cs, c) ==> cs[q] != c,
        cs.contains(c) <==> first_occurrence(cs, c) < cs.len(),
    decreases cs.len(),
{
    if cs.len() > 0 && cs[0] != c {
        lemma_first_occurrence(cs.drop_first(), c);
        assert forall|q: int| 0 <= q < first_occurrence(cs, c) implies cs[q] != c by {
            if q > 0 {
                assert(cs.drop_first()[q - 1] == cs[q]);
            }
        }
        let f = first_occurrence(cs, c);
        if f < cs.len() {
            assert(cs.drop_first()[f - 1] == cs[f]);
        }
        if cs.contains(c) {
            let w = choose|w: int| 0 <= w < cs.len() && cs[w] == c;
            assert(cs.drop_first()[w - 1] == c);
            assert(cs.drop_first().contains(c));
        }
        if cs.drop_first().contains(c) {
            let w = choose|w: int| 0 <= w < cs.drop_first().len() && cs.drop_first()[w] == c;
            assert(cs[w + 1] == c);
        }
    }
}

proof fn lemma_first_occurrence_push(cs: Seq<Seq<char>>, x: Seq<char>, c: Seq<char>)
    ensures
        cs.contains(c) ==> first_occurrence(cs.push(x), c) == first_occurrence(cs, c),
        !cs.contains(c) && x == c ==> first_occurrence(cs.push(x), c) == cs.len(),
{
    lemma_first_occurrence(cs, c);
    lemma_first_occurrence(cs.push(x), c);
    let f = first_occurrence(cs, c);
    let fp = first_occurrence(cs.push(x), c);
    assert(forall|q: int| 0 <= q < cs.len() ==> cs.push(x)[q] == cs[q]);
    if cs.contains(c) {
        assert(cs.push(x)[f] == c);
        assert(cs.push(x).contains(c)) by {
            assert(cs.push(x)[f] == c);
        }
        if fp < f {
            assert(cs[fp] == c);
        }
        if fp > f {
            assert(cs.push(x)[f] != c);
        }
    } else if x == c {
        assert(cs.push(x)[cs.len() as int] == c);
        if fp < cs.len() {
            assert(cs[fp] == c);
        }
        if fp > cs.len() {
            assert(!cs.push(x).contains(c));
            assert(cs.push(x)[cs.len() as int] == c);
        }
    }
}

/// The components of the processed lines.
pub open spec fn line_components(lines: Seq<Seq<char>>) -> Seq<Seq<char>> {
    lines.map_values(|l: Seq<char>| line_component(l))
}

/// How the ordered component list relates to the components of the lines
/// already processed: it holds exactly the distinct non-empty names, and its
/// order is the order of their first occurrences.
pub open spec fn order_matches(st: ParseState, comps: Seq<Seq<char>>) -> bool {
    &&& forall|i: int| 0 <= i < st.order.len() ==> comps.contains(#[trigger] st.order[i])
    &&& forall|i: int|
        0 <= i < comps.len() && (#[trigger] comps[i]).len() > 0 ==> st.order.contains(comps[i])
    &&& forall|i: int, j: int|
        0 <= i < j < st.order.len() ==> first_occurrence(comps, #[trigger] st.order[i])
            < first_occurrence(comps, #[trigger] st.order[j])
    &&& forall|i: int|
        0 <= i < st.funcs.len() ==> (#[trigger] st.funcs[i]).0.len() == 0 || comps.contains(
            st.funcs[i].0,
        )
    &&& forall|i: int|
        0 <= i < comps.len() ==> funcs_contains_key(st.funcs, #[trigger] comps[i])
}

proof fn lemma_step_order_matches(st: ParseState, comps: Seq<Seq<char>>, l: Seq<char>)
    requires
        model_inv(st),
        order_matches(st, comps),
    ensures
        order_matches(parse_step(st, l), comps.push(line_component(l))),
{
    let comp = line_component(l);
    let st1 = parse_step(st, l);
    let comps1 = comps.push(comp);
    assert(forall|q: int| 0 <= q < comps.len() ==> comps1[q] == comps[q]);
    assert(comps1[comps.len() as int] == comp);
    assert forall|y: Seq<char>| comps.contains(y) implies comps1.contains(y) by {
        lemma_push_preserves_contains(comps, comp, y);
    }
    let appended = comp.len() > 0 && !funcs_contains_key(st.funcs, comp);
    if appended {
        assert(st1.order == st.order.push(comp));
        assert(forall|q: int| 0 <= q < st.order.len() ==> st1.order[q] == st.order[q]);
        assert(st1.order[st.order.len() as int] == comp);
        assert(!comps.contains(comp)) by {
            if comps.contains(comp) {
                let w = choose|w: int| 0 <= w < comps.len() && comps[w] == comp;
                assert(funcs_contains_key(st.funcs, comps[w]));
            }
        }
        assert forall|i: int, j: int| 0 <= i < j < st1.order.len() implies first_occurrence(
            comps1,
            #[trigger] st1.order[i],
        ) < first_occurrence(comps1, #[trigger] st1.order[j]) by {
            lemma_first_occurrence(comps, st1.order[i]);
            lemma_first_occurrence_push(comps, comp, st1.order[i]);
            lemma_first_occurrence_push(comps, comp, st1.order[j]);
            if j < st.order.len() {
                assert(comps.contains(st.order[i]) && comps.contains(st.order[j]));
            } else {
                assert(st1.order[j] == comp);
                assert(comps.contains(st1.order[i]));
                assert(first_occurrence(comps1, st1.order[i]) < comps.len());
            }
        }
    } else {
        assert(st1.order == st.order);
        assert forall|i: int, j: int| 0 <= i < j < st1.order.len() implies first_occurrence(
            comps1,
            #[trigger] st1.order[i],
        ) < first_occurrence(comps1, #[trigger] st1.order[j]) by {
            lemma_first_occurrence_push(comps, comp, st1.order[i]);
            lemma_first_occurrence_push(comps, comp, st1.order[j]);
            assert(comps.contains(st.order[i]) && comps.contains(st.order[j]));
        }
    }
    // Membership, both directions.
    assert forall|i: int| 0 <= i < st1.order.len() implies comps1.contains(
        #[trigger] st1.order[i],
    ) by {
        if i < st.order.len() {
            assert(comps.contains(st.order[i]));
        } else {
            assert(st1.order[i] == comp);
            assert(comps1[comps.len() as int] == comp);
        }
    }
    assert forall|i: int|
        0 <= i < comps1.len() && (#[trigger] comps1[i]).len() > 0 implies st1.order.contains(
        comps1[i],
    ) by {
        if i < comps.len() {
            assert(st.order.contains(comps[i]));
            let w = choose|w: int| 0 <= w < st.order.len() && st.order[w] == comps[i];
            if appended {
                assert(st1.order[w] == comps[i]);
            }
        } else {
            assert(comps1[i] == comp);
            if appended {
                assert(st1.order[st1.order.len() - 1] == comp);
            } else {
                assert(funcs_contains_key(st.funcs, comp));
                let k = funcs_key_index(st.funcs, comp);
                assert(st.funcs[k].0 == comp);
                assert(st.order.contains(comp));
                let w = choose|w: int| 0 <= w < st.order.len() && st.order[w] == comp;
                assert(st1.order[w] == comp);
            }
        }
    }
    // Table keys versus processed components.
    let funcs1 = st1.funcs;
    assert forall|i: int| 0 <= i < funcs1.len() implies (#[trigger] funcs1[i]).0.len() == 0
        || comps1.contains(funcs1[i].0) by {
        if !funcs_contains_key(st.funcs, comp) {
            if i < st.funcs.len() {
                assert(funcs1[i] == st.funcs[i]);
            } else {
                assert(funcs1[i].0 == comp);
            }
        } else if line_function(l).len() > 0 {
            let k = funcs_key_index(st.funcs, comp);
            if i == k {
                assert(funcs1[i].0 == comp);
            } else {
                assert(funcs1[i] == st.funcs[i]);
            }
        } else {
            assert(funcs1[i] == st.funcs[i]);
        }
    }
    assert forall|i: int| 0 <= i < comps1.len() implies funcs_contains_key(
        funcs1,
        #[trigger] comps1[i],
    ) by {
        if i < comps.len() {
            let k = funcs_key_index(st.funcs, comps[i]);
            assert(0 <= k < st.funcs.len() && st.funcs[k].0 == comps[i]);
            assert(funcs1[k].0 == comps[i]);
        } else {
            assert(comps1[i] == comp);
            if !funcs_contains_key(st.funcs, comp) {
                assert(funcs1[funcs1.len() - 1].0 == comp);
            } else if line_function(l).len() > 0 {
                let k = funcs_key_index(st.funcs, comp);
                assert(funcs1[k].0 == comp);
            } else {
                let k = funcs_key_index(st.funcs, comp);
                assert(funcs1[k].0 == comp);
            }
        }
    }
}

proof fn lemma_parse_lines_order(st: ParseState, lines: Seq<Seq<char>>, comps: Seq<Seq<char>>)
    requires
        model_inv(st),
        order_matches(st, comps),
    ensures
        order_matches(parse_lines(st, lines), comps + line_components(lines)),
    decreases lines.len(),
{
    if lines.len() == 0 {
        assert(comps + line_components(lines) =~= comps);
    } else {
        let l = lines[0];
        lemma_step_order_matches(st, comps, l);
        lemma_step_preserves_inv(st, l);
        lemma_parse_lines_order(parse_step(st, l), lines.drop_first(), comps.push(
            line_component(l),
        ));
        assert(comps.push(line_component(l)) + line_components(lines.drop_first()) =~= comps
            + line_components(lines));
    }
}

/// Order preservation: the parsed component list holds every distinct
/// non-empty component of the input exactly once, ordered by first
/// appearance — it contains a name if and only if some line's component is
/// that non-empty name, it has no duplicates, and earlier entries first
/// occur on earlier lines.
pub proof fn lemma_order_preservation(text: Seq<char>)
    ensures
        forall|i: int, j: int|
            0 <= i < j < parse(text).order.len() ==> (#[trigger] parse(text).order[i])
                != (#[trigger] parse(text).order[j]),
        forall|i: int|
            0 <= i < parse(text).order.len() ==> (#[trigger] parse(text).order[i]).len() > 0
                && line_components(split_lines(text)).contains(parse(text).order[i]),
        forall|i: int|
            0 <= i < line_components(split_lines(text)).len() && (#[trigger] line_components(
                split_lines(text),
            )[i]).len() > 0 ==> parse(text).order.contains(line_components(split_lines(text))[i]),
        forall|i: int, j: int|
            0 <= i < j < parse(text).order.len() ==> first_occurrence(
                line_components(split_lines(text)),
                #[trigger] parse(text).order[i],
            ) < first_occurrence(
                line_components(split_lines(text)),
                #[trigger] parse(text).order[j],
            ),
{
    lemma_parse_inv(text);
    lemma_parse_lines_order(initial_state(), split_lines(text), Seq::empty());
    assert(Seq::<Seq<char>>::empty() + line_components(split_lines(text)) =~= line_components(
        split_lines(text),
    ));
}

/// The component and function candidates of one line.
pub open spec fn line_pair(l: Seq<char>) -> (Seq<char>, Seq<char>) {
    (line_component(l), line_function(l))
}

/// A line pair that yields a call edge: both parts non-empty.
pub open spec fn valid_pair(p: (Seq<char>, Seq<char>)) -> bool {
    p.0.len() > 0 && p.1.len() > 0
}

/// The `(callee component, callee function)` targets of the edges, in order.
pub open spec fn edge_targets(
    edges: Seq<(Seq<char>, Seq<char>, Seq<char>)>,
) -> Seq<(Seq<char>, Seq<char>)> {
    edges.map_values(|e: (Seq<char>, Seq<char>, Seq<char>)| (e.1, e.2))
}

proof fn lemma_filter_singleton(p: (Seq<char>, Seq<char>))
    ensures
        seq![p].filter(|q: (Seq<char>, Seq<char>)| valid_pair(q)) =~= if valid_pair(p) {
            seq![p]
        } else {
            Seq::<(Seq<char>, Seq<char>)>::empty()
        },
{
    reveal(Seq::filter);
    let s = seq![p];
    assert(s.drop_last() =~= Seq::<(Seq<char>, Seq<char>)>::empty());
    assert(s.last() == p);
    assert(Seq::<(Seq<char>, Seq<char>)>::empty().filter(|q: (Seq<char>, Seq<char>)|
        valid_pair(q)) =~= Seq::<(Seq<char>, Seq<char>)>::empty());
}

proof fn lemma_parse_lines_edges(st: ParseState, lines: Seq<Seq<char>>)
    ensures
        edge_targets(parse_lines(st, lines).edges) == edge_targets(st.edges) + lines.map_values(
            |l: Seq<char>| line_pair(l),
        ).filter(|q: (Seq<char>, Seq<char>)| valid_pair(q)),
    decreases lines.len(),
{
    let pred = |q: (Seq<char>, Seq<char>)| valid_pair(q);
    if lines.len() == 0 {
        reveal(Seq::filter);
        assert(lines.map_values(|l: Seq<char>| line_pair(l)) =~= Seq::<(
            Seq<char>,
            Seq<char>,
        )>::empty());
        assert(edge_targets(parse_lines(st, lines).edges) =~= edge_targets(st.edges)
            + lines.map_values(|l: Seq<char>| line_pair(l)).filter(pred));
    } else {
        let l = lines[0];
        let st1 = parse_step(st, l);
        lemma_parse_lines_edges(st1, lines.drop_first());
        let rest_pairs = lines.drop_first().map_values(|l2: Seq<char>| line_pair(l2));
        let pairs = lines.map_values(|l2: Seq<char>| line_pair(l2));
        assert(pairs =~= seq![line_pair(l)] + rest_pairs);
        Seq::filter_distributes_over_add(seq![line_pair(l)], rest_pairs, pred);
        lemma_filter_singleton(line_pair(l));
        if valid_pair(line_pair(l)) {
            let caller = if st1.stack.len() > 0 {
                st1.stack.last().0
            } else {
                Seq::<char>::empty()
            };
            assert(st1.edges == st.edges.push((caller, line_component(l), line_function(l))));
            assert(edge_targets(st1.edges) =~= edge_targets(st.edges).push(
                (line_component(l), line_function(l)),
            ));
            assert(edge_targets(st.edges).push((line_component(l), line_function(l)))
                =~= edge_targets(st.edges) + seq![line_pair(l)]);
            assert(edge_targets(st.edges) + seq![line_pair(l)] + rest_pairs.filter(pred)
                =~= edge_targets(st.edges) + (seq![line_pair(l)] + rest_pairs.filter(pred)));
            assert(edge_targets(parse_lines(st, lines).edges) =~= edge_targets(st.edges)
                + pairs.filter(pred));
        } else {
            assert(st1.edges == st.edges);
            assert(edge_targets(parse_lines(st, lines).edges) =~= edge_targets(st.edges)
                + pairs.filter(pred));
        }
    }
}

/// Edge order preservation: the `(component, function)` targets of the
/// parsed call edges are, in order, exactly the pairs of the lines whose
/// component and function parts are both non-empty.
pub proof fn lemma_edge_order_preservation(text: Seq<char>)
    ensures
        edge_targets(parse(text).edges) == split_lines(text).map_values(
            |l: Seq<char>| line_pair(l),
        ).filter(|q: (Seq<char>, Seq<char>)| valid_pair(q)),
{
    lemma_parse_lines_edges(initial_state(), split_lines(text));
    assert(edge_targets(initial_state().edges) =~= Seq::<(Seq<char>, Seq<char>)>::empty());
    assert(Seq::<(Seq<char>, Seq<char>)>::empty() + split_lines(text).map_values(
        |l: Seq<char>| line_pair(l),
    ).filter(|q: (Seq<char>, Seq<char>)| valid_pair(q)) =~= split_lines(text).map_values(
        |l: Seq<char>| line_pair(l),
    ).filter(|q: (Seq<char>, Seq<char>)| valid_pair(q)));
}

/// Every character of `s` is whitespace.
pub open spec fn all_ws(s: Seq<char>) -> bool {
    forall|i: int| 0 <= i < s.len() ==> is_ws_char(#[trigger] s[i])
}

proof fn lemma_split_lines_ws(text: Seq<char>)
    requires
        all_ws(text),
    ensures
        forall|i: int|
            0 <= i < split_lines(text).len() ==> all_ws(#[trigger] split_lines(text)[i]),
    decreases text.len(),
{
    let p = find_char(text, '\n');
    lemma_find_char(text, '\n');
    if 0 <= p < text.len() {
        assert(all_ws(text.take(p)));
        assert(all_ws(text.skip(p + 1))) by {
            assert(forall|q: int|
                0 <= q < text.skip(p + 1).len() ==> (#[trigger] text.skip(p + 1)[q]) == text[q + p
                    + 1]);
        }
        lemma_split_lines_ws(text.skip(p + 1));
        assert forall|i: int| 0 <= i < split_lines(text).len() implies all_ws(
            #[trigger] split_lines(text)[i],
        ) by {
            if i == 0 {
                assert(split_lines(text)[0] == text.take(p));
            } else {
                assert(split_lines(text)[i] == split_lines(text.skip(p + 1))[i - 1]);
            }
        }
    }
}

proof fn lemma_ws_line_empty_parts(l: Seq<char>)
    requires
        all_ws(l),
    ensures
        line_component(l).len() == 0,
        line_function(l).len() == 0,
{
    let pred = |c: char| !is_ws_char(c);
    let taken = l.take(vstd::math::min(find_sep(l), l.len() as int));
    lemma_find_sep(l);
    assert(forall|i: int| 0 <= i < taken.len() ==> !pred(#[trigger] taken[i]));
    taken.lemma_all_neg_filter_empty(pred);
    let p = find_sep(l);
    if p + 2 <= l.len() {
        let rest = l.skip(p + 2);
        assert(forall|q: int| 0 <= q < rest.len() ==> rest[q] == l[q + p + 2]);
        let taken2 = rest.take(vstd::math::min(find_sep(rest), rest.len() as int));
        lemma_find_sep(rest);
        assert(forall|i: int| 0 <= i < taken2.len() ==> !pred(#[trigger] taken2[i]));
        taken2.lemma_all_neg_filter_empty(pred);
    }
}

proof fn lemma_parse_lines_no_components(st: ParseState, lines: Seq<Seq<char>>)
    requires
        forall|i: int|
            0 <= i < lines.len() ==> line_component(#[trigger] lines[i]).len() == 0,
    ensures
        parse_lines(st, lines).order == st.order,
        parse_lines(st, lines).edges == st.edges,
    decreases lines.len(),
{
    if lines.len() > 0 {
        assert(line_component(lines[0]).len() == 0);
        lemma_parse_lines_no_components(parse_step(st, lines[0]), lines.drop_first());
    }
}

/// Empty or whitespace-only input parses to an empty component list and an
/// empty call-edge list.
pub proof fn lemma_empty_input(text: Seq<char>)
    requires
        all_ws(text),
    ensures
        parse(text).order.len() == 0,
        parse(text).edges.len() == 0,
{
    lemma_split_lines_ws(text);
    assert forall|i: int|
        0 <= i < split_lines(text).len() implies line_component(
        #[trigger] split_lines(text)[i],
    ).len() == 0 by {
        lemma_ws_line_empty_parts(split_lines(text)[i]);
    }
    lemma_parse_lines_no_components(initial_state(), split_lines(text));
}

impl CallGraph {
    /// True exactly when `function` is among the functions recorded for
    /// `component` in the component table.
    pub fn component_has_function(&self, component: &str, function: &str) -> (r: bool)
        requires
            funcs_keys_unique(self.funcs_view()),
        ensures
            r == exists|i: int, j: int|
                0 <= i < self.funcs_view().len() && self.funcs_view()[i].0 == component@ && 0 <= j
                    < self.funcs_view()[i].1.len() && #[trigger] self.funcs_view()[i].1[j]
                    == function@,
    {
        let n = self.components.len();
        let mut i: usize = 0;
        while i < n
            invariant
                n == self.components@.len(),
                i <= n,
                funcs_keys_unique(self.funcs_view()),
                forall|k: int, j: int|
                    !(0 <= k < i && self.funcs_view()[k].0 == component@ && 0 <= j
                        < self.funcs_view()[k].1.len() && #[trigger] self.funcs_view()[k].1[j]
                        == function@),
            decreases n - i,
        {
            proof {
                assert(self.funcs_view()[i as int] == self.components@[i as int]@);
            }
            let entry_name: &String = &self.components[i].name;
            if crate::text::str_eq(entry_name.as_str(), component) {
                proof {
                    assert(entry_name@ == component@);
                    assert(self.components@[i as int].name@ == component@);
                    assert(self.funcs_view()[i as int].0 == component@);
                }
                let entry_len = self.components[i].functions.len();
                let mut j: usize = 0;
                while j < entry_len
                    invariant
                        i < n,
                        n == self.components@.len(),
                        entry_len == self.components@[i as int].functions@.len(),
                        j <= entry_len,
                        self.funcs_view()[i as int] == self.components@[i as int]@,
                        self.funcs_view()[i as int].0 == component@,
                        funcs_keys_unique(self.funcs_view()),
                        forall|q: int|
                            0 <= q < j ==> #[trigger] self.funcs_view()[i as int].1[q]
                                != function@,
                    decreases entry_len - j,
                {
                    proof {
                        assert(self.funcs_view()[i as int].1[j as int] == self.components@[
                            i as int
                        ].functions@[j as int]@);
                    }
                    let fname: &String = &self.components[i].functions[j];
                    if crate::text::str_eq(fname.as_str(), function) {
                        proof {
                            assert(fname@ == function@);
                            assert(self.components@[i as int].functions@[j as int]@ == function@);
                            assert(self.funcs_view()[i as int].0 == component@);
                            assert(self.funcs_view()[i as int].1[j as int] == function@);
                        }
                        return true;
                    }
                    j = j + 1;
                }
                proof {
                    assert(self.funcs_view()[i as int].0 == component@);
                    assert forall|k: int, q: int|
                        !(0 <= k < self.funcs_view().len() && self.funcs_view()[k].0 == component@
                            && 0 <= q < self.funcs_view()[k].1.len()
                            && #[trigger] self.funcs_view()[k].1[q] == function@) by {
                        if 0 <= k < self.funcs_view().len() && k != i as int {
                            assert(self.funcs_view()[k].0 != self.funcs_view()[i as int].0);
                        }
                    }
                }
                return false;
            }
            proof {
                assert(self.funcs_view()[i as int].0 != component@);
            }
            i = i + 1;
        }
        false
    }
}

} // verus!
