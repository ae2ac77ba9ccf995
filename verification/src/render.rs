//! The hierarchy formatter: an iterative depth-first traversal over an
//! explicit stack of frames, reconstructing each line's connector prefix
//! from stack state.
//!
//! The intended output is given operationally, as a small-step machine
//! over ghost traversal states (`advance`, `run_steps`): the traversal
//! algorithm itself is the specification of what a line looks like and in
//! which order lines appear. The executable `render` is proved to return
//! exactly what the machine emits.

use vstd::prelude::*;
use vstd::string::StringExecFns;

use bevy_ecs::entity::Entity;
use bevy_ecs::world::World;

use crate::store::children_of;
use crate::store::component_names;
use crate::store::components_of;
use crate::store::contains_entity;
use crate::store::entity_generation;
use crate::store::entity_generation_of;
use crate::store::entity_index;
use crate::store::entity_index_of;
use crate::store::has_entity;
use crate::store::lookup_children;
use crate::store::lookup_name;
use crate::store::name_of;
use crate::store::short_name_of;
use crate::store::shorten;
use crate::text::dec_digits;
use crate::text::joined;
use crate::text::lemma_dec_digits_nl_free;
use crate::text::lemma_joined_nl_free;
use crate::text::lemma_nl_count_concat;
use crate::text::lemma_nl_count_single;
use crate::text::lemma_nl_count_zero;
use crate::text::nl_count;
use crate::text::u32_dec;

verus! {

/// One pending node of the traversal: the entity, the prefix its line
/// inherits, and whether it is the last sibling of its parent.
pub ghost struct Frame {
    pub entity: Entity,
    pub prefix: Seq<char>,
    pub last: bool,
}

/// A traversal state: the pending frames (top of the stack at the end),
/// the text emitted so far, and how many entities were visited.
pub ghost struct MState {
    pub stack: Seq<Frame>,
    pub out: Seq<char>,
    pub visited: nat,
}

/// What stepping the traversal yields: a next state, the finished text
/// with its visit count, or a store-invariant violation.
pub ghost enum RunState {
    Going(MState),
    Finished(Seq<char>, nat),
    Malformed,
}

/// The id text of an entity, exactly as the store displays entity ids:
/// `<index>v<generation>`, with the one reserved placeholder id spelled
/// out.
pub open spec fn id_text(e: Entity) -> Seq<char> {
    if entity_index_of(e) == u32::MAX && entity_generation_of(e) == 1 {
        seq!['P', 'L', 'A', 'C', 'E', 'H', 'O', 'L', 'D', 'E', 'R']
    } else {
        dec_digits(entity_index_of(e) as nat) + seq!['v'] + dec_digits(
            entity_generation_of(e) as nat,
        )
    }
}

/// The label of an entity's line: `"<name>" (<id>)` when the entity
/// carries a name, the bare `<id>` otherwise.
pub open spec fn label_of(w: &World, e: Entity) -> Seq<char> {
    match name_of(w, e) {
        Option::Some(n) => seq!['"'] + n + seq!['"', ' ', '('] + id_text(e) + seq![')'],
        Option::None => id_text(e),
    }
}

/// The short names of an entity's components, in enumeration order.
pub open spec fn short_names_of(w: &World, e: Entity) -> Seq<Seq<char>> {
    components_of(w, e).map_values(|full: Seq<char>| short_name_of(full))
}

/// The component suffix of an entity's line: `: [a, b, …]` over the short
/// names in enumeration order, or nothing when no component is attached.
pub open spec fn suffix_of(w: &World, e: Entity) -> Seq<char> {
    if short_names_of(w, e).len() == 0 {
        Seq::empty()
    } else {
        seq![':', ' ', '['] + joined(short_names_of(w, e)) + seq![']']
    }
}

/// One output line: the inherited prefix, a connector glyph (omitted at
/// the root, `└` for a last sibling, `├` otherwise), the label, the
/// component suffix, and a line break.
pub open spec fn line_of(w: &World, e: Entity, prefix: Seq<char>, last: bool) -> Seq<char> {
    let lead = if prefix.len() > 0 {
        prefix + seq![
            if last {
                '└'
            } else {
                '├'
            },
        ]
    } else {
        prefix
    };
    lead + label_of(w, e) + suffix_of(w, e) + seq!['\n']
}

/// The frames a child list pushes: popped last-in-first-out, they yield
/// the children in their original left-to-right order, and only the last
/// child carries the last-sibling flag.
pub open spec fn child_frames(cs: Seq<Entity>, child_prefix: Seq<char>) -> Seq<Frame> {
    Seq::new(
        cs.len(),
        |i: int|
            Frame {
                entity: cs[cs.len() - 1 - i],
                prefix: child_prefix,
                last: i == 0,
            },
    )
}

/// One traversal step. An empty stack finishes with the emitted text. A
/// dead entity on the stack, or a child list present but empty, is a
/// store-invariant violation. Otherwise the top frame is popped, its line
/// is emitted, and its children (if any) are pushed: the prefix they
/// inherit grows by a blank column under a last sibling and by a `│`
/// column otherwise.
pub open spec fn advance(w: &World, st: MState) -> RunState {
    if st.stack.len() == 0 {
        RunState::Finished(st.out, st.visited)
    } else {
        let f = st.stack.last();
        let rest = st.stack.drop_last();
        if !has_entity(w, f.entity) {
            RunState::Malformed
        } else {
            let out2 = st.out + line_of(w, f.entity, f.prefix, f.last);
            match children_of(w, f.entity) {
                Option::None => RunState::Going(
                    MState { stack: rest, out: out2, visited: st.visited + 1 },
                ),
                Option::Some(cs) => {
                    if cs.len() == 0 {
                        RunState::Malformed
                    } else {
                        let cp = f.prefix + seq![
                            if f.last {
                                ' '
                            } else {
                                '│'
                            },
                        ];
                        RunState::Going(
                            MState {
                                stack: rest + child_frames(cs, cp),
                                out: out2,
                                visited: st.visited + 1,
                            },
                        )
                    }
                },
            }
        }
    }
}

/// The traversal after `n` steps from `st`: still going, finished, or
/// stopped at a store-invariant violation.
pub open spec fn run_steps(w: &World, st: MState, n: nat) -> RunState
    decreases n,
{
    if n == 0 {
        RunState::Going(st)
    } else {
        match advance(w, st) {
            RunState::Going(st2) => run_steps(w, st2, (n - 1) as nat),
            r => r,
        }
    }
}

/// The state a traversal from `root` starts in: one frame, no prefix,
/// root counted as a last sibling, nothing emitted.
pub open spec fn init_state(root: Entity) -> MState {
    MState {
        stack: seq![
            Frame { entity: root, prefix: Seq::empty(), last: true },
        ],
        out: Seq::empty(),
        visited: 0,
    }
}

/// The traversal from `root` eventually halts. This is the store-shape
/// precondition: the subtree below `root` is a finite forest; on a cyclic
/// hierarchy the traversal never halts and rendering is out of contract.
pub open spec fn traversal_halts(w: &World, root: Entity) -> bool {
    exists|n: nat| !(run_steps(w, init_state(root), n) is Going)
}

/// The traversal from `root` finishes and emits exactly `out`.
pub open spec fn renders_to(w: &World, root: Entity, out: Seq<char>) -> bool {
    exists|n: nat|
        #[trigger] run_steps(w, init_state(root), n) matches RunState::Finished(o, _) && o == out
}

/// The traversal from `root` finishes.
pub open spec fn renders_done(w: &World, root: Entity) -> bool {
    exists|n: nat| run_steps(w, init_state(root), n) is Finished
}

/// The traversal from `root` runs into a store-invariant violation.
pub open spec fn renders_malformed(w: &World, root: Entity) -> bool {
    exists|n: nat| run_steps(w, init_state(root), n) is Malformed
}

/// Once a run has halted, running longer changes nothing.
pub proof fn lemma_run_stable(w: &World, st: MState, n: nat, m: nat)
    requires
        !(run_steps(w, st, n) is Going),
        n <= m,
    ensures
        run_steps(w, st, m) == run_steps(w, st, n),
    decreases n,
{
    if n == 0 {
        // impossible: a zero-step run is still going
    } else {
        match advance(w, st) {
            RunState::Going(st2) => {
                lemma_run_stable(w, st2, (n - 1) as nat, (m - 1) as nat);
            },
            _ => {},
        }
    }
}

/// A partial run extends one step at a time.
pub proof fn lemma_run_extend(w: &World, st: MState, n: nat, c: MState)
    requires
        run_steps(w, st, n) == RunState::Going(c),
    ensures
        run_steps(w, st, n + 1) == advance(w, c),
    decreases n,
{
    if n == 0 {
        match advance(w, st) {
            RunState::Going(st2) => {
                assert(run_steps(w, st2, 0nat) == RunState::Going(st2));
                assert(run_steps(w, st, 1) == RunState::Going(st2));
            },
            _ => {
                assert(run_steps(w, st, 1) == advance(w, st));
            },
        }
    } else {
        match advance(w, st) {
            RunState::Going(st2) => {
                lemma_run_extend(w, st2, (n - 1) as nat, c);
                assert(run_steps(w, st, n + 1) == run_steps(w, st2, n));
            },
            _ => {},
        }
    }
}

/// Any two halted runs from the same state agree: the traversal's outcome
/// — the whole text, the visit count, or the violation — is unique.
/// Rendering the same unchanged store twice yields identical output.
pub proof fn lemma_run_unique(w: &World, st: MState, n: nat, m: nat)
    requires
        !(run_steps(w, st, n) is Going),
        !(run_steps(w, st, m) is Going),
    ensures
        run_steps(w, st, n) == run_steps(w, st, m),
{
    if n <= m {
        lemma_run_stable(w, st, n, m);
    } else {
        lemma_run_stable(w, st, m, n);
    }
}

/// Law: an unchanged store renders to one text only — two finished
/// traversals from the same root emit byte-identical output.
pub proof fn lemma_render_deterministic(w: &World, root: Entity, a: Seq<char>, b: Seq<char>)
    requires
        renders_to(w, root, a),
        renders_to(w, root, b),
    ensures
        a == b,
{
    let na = choose|n: nat|
        #[trigger] run_steps(w, init_state(root), n) matches RunState::Finished(o, _) && o == a;
    let nb = choose|n: nat|
        #[trigger] run_steps(w, init_state(root), n) matches RunState::Finished(o, _) && o == b;
    lemma_run_unique(w, init_state(root), na, nb);
}

/// Renders the id of an entity as the store displays it.
fn entity_id_string(e: Entity) -> (r: String)
    ensures
        r@ == id_text(e),
{
    let i = entity_index(e);
    let g = entity_generation(e);
    if i == u32::MAX && g == 1 {
        let s = "PLACEHOLDER".to_owned();
        proof {
            reveal_strlit("PLACEHOLDER");
            assert(s@ =~= id_text(e));
        }
        s
    } else {
        let mut s = u32_dec(i);
        s.append("v");
        let gs = u32_dec(g);
        s.append(gs.as_str());
        proof {
            reveal_strlit("v");
            assert("v"@ =~= seq!['v']);
            assert(s@ =~= id_text(e));
        }
        s
    }
}

/// Renders the label of an entity's line.
fn label_string(w: &World, e: Entity) -> (r: String)
    ensures
        r@ == label_of(w, e),
{
    let id = entity_id_string(e);
    match lookup_name(w, e) {
        Option::Some(n) => {
            let mut s = "\"".to_owned();
            s.append(n.as_str());
            s.append("\" (");
            s.append(id.as_str());
            s.append(")");
            proof {
                reveal_strlit("\"");
                reveal_strlit("\" (");
                reveal_strlit(")");
                assert("\""@ =~= seq!['"']);
                assert("\" ("@ =~= seq!['"', ' ', '(']);
                assert(")"@ =~= seq![')']);
                assert(s@ =~= label_of(w, e));
            }
            s
        },
        Option::None => id,
    }
}

/// Renders the component suffix of an entity's line.
#[verifier::loop_isolation(false)]
fn suffix_string(w: &World, e: Entity) -> (r: String)
    requires
        has_entity(w, e),
    ensures
        r@ == suffix_of(w, e),
{
    let full = component_names(w, e);
    let ghost names = short_names_of(w, e);
    proof {
        assert(names.len() == full@.len());
    }
    if full.len() == 0 {
        let s = String::new();
        proof {
            assert(s@ =~= suffix_of(w, e));
        }
        s
    } else {
        let mut acc = String::new();
        let mut i: usize = 0;
        while i < full.len()
            invariant
                i <= full.len(),
                acc@ == joined(names.take(i as int)),
            decreases full.len() - i,
        {
            if i > 0 {
                acc.append(", ");
            }
            let sn = shorten(full[i].as_str());
            acc.append(sn.as_str());
            proof {
                reveal_strlit(", ");
                assert(", "@ =~= seq![',', ' ']);
                assert(names[i as int] == short_name_of(full@[i as int]@));
                assert(names.take(i + 1).drop_last() =~= names.take(i as int));
                assert(names.take(i + 1).last() == names[i as int]);
                assert(names.take(i + 1).len() == i + 1);
                assert(acc@ =~= joined(names.take(i + 1)));
            }
            i += 1;
        }
        proof {
            assert(names.take(full@.len() as int) =~= names);
        }
        let mut s = ": [".to_owned();
        s.append(acc.as_str());
        s.append("]");
        proof {
            reveal_strlit(": [");
            reveal_strlit("]");
            assert(": ["@ =~= seq![':', ' ', '[']);
            assert("]"@ =~= seq![']']);
            assert(s@ =~= suffix_of(w, e));
        }
        s
    }
}

/// Why a render fails: the requested root entity is not in the store, or
/// the store breaks its own shape invariant (a child list that is empty,
/// or a child id that is dead).
#[derive(Clone, Copy, Debug, PartialEq, Eq)]
pub enum HierarchyError {
    UnknownRoot,
    MalformedHierarchy,
}

/// The frames a stack of traversal tuples stands for.
pub open spec fn frames_view(s: Seq<(Entity, String, bool)>) -> Seq<Frame> {
    s.map_values(
        |t: (Entity, String, bool)| (Frame { entity: t.0, prefix: t.1@, last: t.2 }),
    )
}

/// Pushing a traversal tuple pushes the frame it stands for.
proof fn lemma_frames_view_push(s: Seq<(Entity, String, bool)>, t: (Entity, String, bool))
    ensures
        frames_view(s.push(t)) =~= frames_view(s).push(
            Frame { entity: t.0, prefix: t.1@, last: t.2 },
        ),
{
    let a = frames_view(s.push(t));
    let b = frames_view(s).push(Frame { entity: t.0, prefix: t.1@, last: t.2 });
    assert forall|j: int| 0 <= j < a.len() implies a[j] == b[j] by {
        if j < s.len() {
            assert(s.push(t)[j] == s[j]);
        } else {
            assert(s.push(t)[j] == t);
        }
    }
}

/// The traversal state a render loop is in.
pub open spec fn state_of(s: Seq<(Entity, String, bool)>, out: Seq<char>, visited: nat) -> MState {
    MState { stack: frames_view(s), out: out, visited: visited }
}

/// A root entity paired with a read-only handle to the store it lives in,
/// ready to be rendered.
#[must_use]
pub struct DebugEntityHierarchy<'w> {
    pub entity: Entity,
    pub world: &'w World,
}

/// Pairs a root entity with the store, so the subtree below it can be
/// rendered.
pub fn debug_entity_hierarchy<'w>(entity: Entity, world: &'w World) -> (r: DebugEntityHierarchy<
    'w,
>)
    ensures
        r.entity == entity,
        r.world == world,
{
    DebugEntityHierarchy { entity, world }
}

impl DebugEntityHierarchy<'_> {
    /// Renders the hierarchy below the root as one text block, one line
    /// per visited entity, exactly the text the traversal machine emits.
    /// Fails with `UnknownRoot` exactly when the root is not in the
    /// store, and with `MalformedHierarchy` exactly when the traversal
    /// runs into a store-invariant violation below a known root.
    #[verifier::loop_isolation(false)]
    pub fn render(&self) -> (r: Result<String, HierarchyError>)
        requires
            traversal_halts(self.world, self.entity),
        ensures
            (r matches Err(e) && e == HierarchyError::UnknownRoot) <==> !has_entity(
                self.world,
                self.entity,
            ),
            r is Ok <==> renders_done(self.world, self.entity),
            r matches Ok(s) ==> renders_to(self.world, self.entity, s@),
            (r matches Err(e) && e == HierarchyError::MalformedHierarchy) <==> (has_entity(
                self.world,
                self.entity,
            ) && renders_malformed(self.world, self.entity)),
    {
        let w = self.world;
        let root = self.entity;
        let ghost st0 = init_state(root);
        if !contains_entity(w, root) {
            proof {
                assert(st0.stack.last() == (Frame {
                    entity: root,
                    prefix: Seq::<char>::empty(),
                    last: true,
                }));
                assert(advance(w, st0) == RunState::Malformed);
                assert forall|m: nat| !(#[trigger] run_steps(w, st0, m) is Finished) by {
                    if m > 0 {
                        assert(run_steps(w, st0, m) == RunState::Malformed);
                    }
                }
            }
            return Err(HierarchyError::UnknownRoot);
        }
        let mut stack: Vec<(Entity, String, bool)> = Vec::new();
        stack.push((root, String::new(), true));
        let mut out = String::new();
        let ghost mut steps: nat = 0;
        let ghost mut visited: nat = 0;
        let ghost mut fuel: nat = choose|n: nat| !(run_steps(w, st0, n) is Going);
        proof {
            assert(frames_view(stack@) =~= st0.stack);
            assert(state_of(stack@, out@, visited) == st0);
            assert(run_steps(w, st0, steps) == RunState::Going(st0));
            assert(traversal_halts(w, root));
            assert(!(run_steps(w, st0, fuel) is Going));
        }
        while stack.len() != 0
            invariant
                run_steps(w, st0, steps) == RunState::Going(state_of(stack@, out@, visited)),
                !(run_steps(w, state_of(stack@, out@, visited), fuel) is Going),
            decreases fuel,
        {
            let ghost pre = state_of(stack@, out@, visited);
            let top = stack.pop().unwrap();
            let (e, prefix, last) = top;
            let ghost prefix0 = prefix@;
            proof {
                assert(pre.stack.last() == (Frame { entity: e, prefix: prefix0, last: last }));
                assert(frames_view(stack@) =~= pre.stack.drop_last());
            }
            if !contains_entity(w, e) {
                proof {
                    assert(advance(w, pre) == RunState::Malformed);
                    lemma_run_extend(w, st0, steps, pre);
                    assert(run_steps(w, st0, steps + 1) == RunState::Malformed);
                    assert forall|m: nat| !(#[trigger] run_steps(w, st0, m) is Finished) by {
                        if run_steps(w, st0, m) is Finished {
                            lemma_run_unique(w, st0, steps + 1, m);
                        }
                    }
                }
                return Err(HierarchyError::MalformedHierarchy);
            }
            let mut line = String::new();
            line.append(prefix.as_str());
            if !prefix.as_str().is_empty() {
                line.append(
                    if last {
                        "└"
                    } else {
                        "├"
                    },
                );
            }
            let label = label_string(w, e);
            line.append(label.as_str());
            let suffix = suffix_string(w, e);
            line.append(suffix.as_str());
            line.append("\n");
            proof {
                reveal_strlit("└");
                reveal_strlit("├");
                reveal_strlit("\n");
                assert("└"@ =~= seq!['└']);
                assert("├"@ =~= seq!['├']);
                assert("\n"@ =~= seq!['\n']);
                assert(line@ =~= line_of(w, e, prefix0, last));
            }
            out.append(line.as_str());
            proof {
                visited = visited + 1;
            }
            match lookup_children(w, e) {
                Option::None => {
                    proof {
                        assert(advance(w, pre) == RunState::Going(
                            state_of(stack@, out@, visited),
                        ));
                    }
                },
                Option::Some(cs) => {
                    if cs.len() == 0 {
                        proof {
                            assert(children_of(w, e).unwrap().len() == 0);
                            assert(advance(w, pre) == RunState::Malformed);
                            lemma_run_extend(w, st0, steps, pre);
                            assert(run_steps(w, st0, steps + 1) == RunState::Malformed);
                            assert forall|m: nat| !(#[trigger] run_steps(w, st0, m) is Finished) by {
                                if run_steps(w, st0, m) is Finished {
                                    lemma_run_unique(w, st0, steps + 1, m);
                                }
                            }
                        }
                        return Err(HierarchyError::MalformedHierarchy);
                    }
                    let mut child_prefix = prefix;
                    child_prefix.append(
                        if last {
                            " "
                        } else {
                            "│"
                        },
                    );
                    proof {
                        reveal_strlit(" ");
                        reveal_strlit("│");
                        assert(" "@ =~= seq![' ']);
                        assert("│"@ =~= seq!['│']);
                    }
                    let ghost cp = child_prefix@;
                    let ghost rest_frames = frames_view(stack@);
                    let ghost cseq = children_of(w, e).unwrap();
                    let n = cs.len();
                    let first_child = cs[n - 1];
                    let ghost before = stack@;
                    let cpc = child_prefix.clone();
                    proof {
                        assert(cpc@ == cp);
                    }
                    stack.push((first_child, cpc, true));
                    proof {
                        lemma_frames_view_push(before, stack@.last());
                        assert(child_frames(cseq, cp)[0] == (Frame {
                            entity: first_child,
                            prefix: cp,
                            last: true,
                        }));
                        assert(frames_view(stack@) =~= rest_frames + child_frames(
                            cseq,
                            cp,
                        ).take(1));
                    }
                    let mut i = n - 1;
                    while i > 0
                        invariant
                            i < n,
                            frames_view(stack@) =~= rest_frames + child_frames(cseq, cp).take(
                                n - i,
                            ),
                        decreases i,
                    {
                        let c = cs[i - 1];
                        let ghost before2 = stack@;
                        let cpc2 = child_prefix.clone();
                        proof {
                            assert(cpc2@ == cp);
                        }
                        stack.push((c, cpc2, false));
                        proof {
                            lemma_frames_view_push(before2, stack@.last());
                            assert(child_frames(cseq, cp)[n - i] == (Frame {
                                entity: c,
                                prefix: cp,
                                last: false,
                            }));
                            assert(child_frames(cseq, cp).take(n - i + 1) =~= child_frames(
                                cseq,
                                cp,
                            ).take(n - i).push(child_frames(cseq, cp)[n - i]));
                            assert(frames_view(stack@) =~= rest_frames + child_frames(
                                cseq,
                                cp,
                            ).take(n - i + 1));
                        }
                        i -= 1;
                    }
                    proof {
                        assert(child_frames(cseq, cp).take(n as int) =~= child_frames(cseq, cp));
                        assert(cp == prefix0 + seq![
                            if last {
                                ' '
                            } else {
                                '│'
                            },
                        ]);
                        assert(advance(w, pre) == RunState::Going(
                            state_of(stack@, out@, visited),
                        ));
                    }
                },
            }
            proof {
                lemma_run_extend(w, st0, steps, pre);
                if fuel == 0 {
                    assert(run_steps(w, pre, 0nat) == RunState::Going(pre));
                }
                assert(run_steps(w, pre, fuel) == run_steps(
                    w,
                    state_of(stack@, out@, visited),
                    (fuel - 1) as nat,
                ));
                steps = steps + 1;
                fuel = (fuel - 1) as nat;
            }
        }
        proof {
            let cur = state_of(stack@, out@, visited);
            assert(cur.stack.len() == 0);
            assert(advance(w, cur) == RunState::Finished(out@, visited));
            lemma_run_extend(w, st0, steps, cur);
            assert(run_steps(w, st0, steps + 1) == RunState::Finished(out@, visited));
            assert(run_steps(w, st0, steps + 1) matches RunState::Finished(o, _) && o == out@);
            assert forall|m: nat| !(#[trigger] run_steps(w, st0, m) is Malformed) by {
                if run_steps(w, st0, m) is Malformed {
                    lemma_run_unique(w, st0, steps + 1, m);
                }
            }
        }
        Ok(out)
    }
}

/// The store's display texts hold no line break: every name, and every
/// component short name. The one-line-per-entity law holds under this
/// premise; a name that itself contains a line break breaks it by design.
pub open spec fn store_names_nl_free(w: &World) -> bool {
    forall|e: Entity|
        #![trigger name_of(w, e)]
        #![trigger short_names_of(w, e)]
        (name_of(w, e) matches Option::Some(nm) ==> nl_count(nm) == 0) && (forall|i: int|
            0 <= i < short_names_of(w, e).len() ==> nl_count(
                #[trigger] short_names_of(w, e)[i],
            ) == 0)
}

/// An entity id text holds no line break.
proof fn lemma_id_text_nl_free(e: Entity)
    ensures
        nl_count(id_text(e)) == 0,
{
    if entity_index_of(e) == u32::MAX && entity_generation_of(e) == 1 {
        lemma_nl_count_zero(id_text(e));
    } else {
        lemma_dec_digits_nl_free(entity_index_of(e) as nat);
        lemma_dec_digits_nl_free(entity_generation_of(e) as nat);
        lemma_nl_count_single('v');
        lemma_nl_count_concat(dec_digits(entity_index_of(e) as nat), seq!['v']);
        lemma_nl_count_concat(
            dec_digits(entity_index_of(e) as nat) + seq!['v'],
            dec_digits(entity_generation_of(e) as nat),
        );
    }
}

/// A label holds no line break when the store's names hold none.
proof fn lemma_label_nl_free(w: &World, e: Entity)
    requires
        store_names_nl_free(w),
    ensures
        nl_count(label_of(w, e)) == 0,
{
    lemma_id_text_nl_free(e);
    match name_of(w, e) {
        Option::Some(nm) => {
            lemma_nl_count_single('"');
            lemma_nl_count_zero(seq!['"', ' ', '(']);
            lemma_nl_count_single(')');
            lemma_nl_count_concat(seq!['"'], nm);
            lemma_nl_count_concat(seq!['"'] + nm, seq!['"', ' ', '(']);
            lemma_nl_count_concat(seq!['"'] + nm + seq!['"', ' ', '('], id_text(e));
            lemma_nl_count_concat(
                seq!['"'] + nm + seq!['"', ' ', '('] + id_text(e),
                seq![')'],
            );
        },
        Option::None => {},
    }
}

/// A component suffix holds no line break when the store's short names
/// hold none.
proof fn lemma_suffix_nl_free(w: &World, e: Entity)
    requires
        store_names_nl_free(w),
    ensures
        nl_count(suffix_of(w, e)) == 0,
{
    if short_names_of(w, e).len() == 0 {
        assert(nl_count(Seq::<char>::empty()) == 0);
    } else {
        lemma_joined_nl_free(short_names_of(w, e));
        lemma_nl_count_zero(seq![':', ' ', '[']);
        lemma_nl_count_single(']');
        lemma_nl_count_concat(seq![':', ' ', '['], joined(short_names_of(w, e)));
        lemma_nl_count_concat(
            seq![':', ' ', '['] + joined(short_names_of(w, e)),
            seq![']'],
        );
    }
}

/// Every emitted line ends in its line break and holds no other.
proof fn lemma_line_nl(w: &World, e: Entity, prefix: Seq<char>, last: bool)
    requires
        store_names_nl_free(w),
        nl_count(prefix) == 0,
    ensures
        nl_count(line_of(w, e, prefix, last)) == 1,
{
    lemma_label_nl_free(w, e);
    lemma_suffix_nl_free(w, e);
    lemma_nl_count_single('\n');
    let lead = if prefix.len() > 0 {
        prefix + seq![
            if last {
                '└'
            } else {
                '├'
            },
        ]
    } else {
        prefix
    };
    if prefix.len() > 0 {
        lemma_nl_count_single(
            if last {
                '└'
            } else {
                '├'
            },
        );
        lemma_nl_count_concat(
            prefix,
            seq![
                if last {
                    '└'
                } else {
                    '├'
                },
            ],
        );
    }
    lemma_nl_count_concat(lead, label_of(w, e));
    lemma_nl_count_concat(lead + label_of(w, e), suffix_of(w, e));
    lemma_nl_count_concat(lead + label_of(w, e) + suffix_of(w, e), seq!['\n']);
}

/// No prefix waiting on the stack holds a line break.
pub open spec fn stack_prefixes_nl_free(stack: Seq<Frame>) -> bool {
    forall|j: int| 0 <= j < stack.len() ==> nl_count(#[trigger] stack[j].prefix) == 0
}

/// The inductive step of the one-line-per-entity law, over any traversal
/// state whose emitted text already holds one line break per visit.
proof fn lemma_line_count_run(w: &World, st: MState, n: nat, out: Seq<char>, count: nat)
    requires
        store_names_nl_free(w),
        stack_prefixes_nl_free(st.stack),
        nl_count(st.out) == st.visited,
        run_steps(w, st, n) == RunState::Finished(out, count),
    ensures
        nl_count(out) == count,
    decreases n,
{
    if n == 0 {
        // impossible: a zero-step run is still going
    } else {
        let f = st.stack.last();
        match advance(w, st) {
            RunState::Going(st2) => {
                assert(stack_prefixes_nl_free(st2.stack)) by {
                    assert forall|j: int|
                        0 <= j < st2.stack.len() implies nl_count(
                        #[trigger] st2.stack[j].prefix,
                    ) == 0 by {
                        if j < st.stack.len() - 1 {
                            assert(st.stack.drop_last()[j] == st.stack[j]);
                        } else {
                            let col = if f.last {
                                ' '
                            } else {
                                '│'
                            };
                            lemma_nl_count_single(col);
                            lemma_nl_count_concat(f.prefix, seq![col]);
                        }
                    }
                }
                lemma_line_nl(w, f.entity, f.prefix, f.last);
                lemma_nl_count_concat(st.out, line_of(w, f.entity, f.prefix, f.last));
                lemma_line_count_run(w, st2, (n - 1) as nat, out, count);
            },
            _ => {},
        }
    }
}

/// Law: a finished traversal emits exactly one line per visited entity —
/// the output holds exactly `count` line breaks, one terminating each
/// line — provided the store's display texts hold no line break.
pub proof fn lemma_one_line_per_entity(w: &World, root: Entity, n: nat, out: Seq<char>, count: nat)
    requires
        store_names_nl_free(w),
        run_steps(w, init_state(root), n) == RunState::Finished(out, count),
    ensures
        nl_count(out) == count,
{
    let st0 = init_state(root);
    assert(stack_prefixes_nl_free(st0.stack)) by {
        assert(nl_count(Seq::<char>::empty()) == 0);
        assert(st0.stack[0].prefix == Seq::<char>::empty());
    }
    assert(nl_count(st0.out) == 0);
    lemma_line_count_run(w, st0, n, out, count);
}

/// Law: when a frame with children is popped, the pushed frames pop back
/// in the children's original left-to-right order; exactly the last child
/// carries the last-sibling flag, and every child inherits the parent's
/// prefix extended by a blank column under a last sibling and by a `│`
/// column otherwise.
pub proof fn lemma_sibling_order(w: &World, st: MState)
    requires
        st.stack.len() > 0,
        has_entity(w, st.stack.last().entity),
        children_of(w, st.stack.last().entity) matches Option::Some(cs) && cs.len() > 0,
    ensures
        advance(w, st) matches RunState::Going(st2) && {
            let f = st.stack.last();
            let cs = children_of(w, f.entity).unwrap();
            let cp = f.prefix + seq![
                if f.last {
                    ' '
                } else {
                    '│'
                },
            ];
            &&& st2.stack.len() == st.stack.len() - 1 + cs.len()
            &&& (forall|i: int|
                0 <= i < cs.len() ==> (#[trigger] st2.stack[st2.stack.len() - 1 - i])
                    == (Frame { entity: cs[i], prefix: cp, last: i == cs.len() - 1 }))
        },
{
    let f = st.stack.last();
    let cs = children_of(w, f.entity).unwrap();
    let cp = f.prefix + seq![
        if f.last {
            ' '
        } else {
            '│'
        },
    ];
    let st2 = MState {
        stack: st.stack.drop_last() + child_frames(cs, cp),
        out: st.out + line_of(w, f.entity, f.prefix, f.last),
        visited: st.visited + 1,
    };
    assert(advance(w, st) == RunState::Going(st2));
    assert forall|i: int|
        0 <= i < cs.len() implies (#[trigger] st2.stack[st2.stack.len() - 1 - i]) == (Frame {
        entity: cs[i],
        prefix: cp,
        last: i == cs.len() - 1,
    }) by {
        let j = st2.stack.len() - 1 - i;
        assert(st2.stack[j] == child_frames(cs, cp)[cs.len() - 1 - i]);
    }
}

/// Law: a non-root line opens with its inherited prefix, then `└` exactly
/// when the entity is a last sibling and `├` otherwise.
pub proof fn lemma_connector(w: &World, e: Entity, prefix: Seq<char>, last: bool)
    requires
        prefix.len() > 0,
    ensures
        line_of(w, e, prefix, last).take(prefix.len() as int) == prefix,
        line_of(w, e, prefix, last)[prefix.len() as int] == (if last {
            '└'
        } else {
            '├'
        }),
{
    assert(line_of(w, e, prefix, last).take(prefix.len() as int) =~= prefix);
}

/// Law: an entity without a name is labelled by its id alone; one with a
/// name by the quoted name and the parenthesised id.
pub proof fn lemma_label_forms(w: &World, e: Entity)
    ensures
        name_of(w, e) is None ==> label_of(w, e) == id_text(e),
        name_of(w, e) matches Option::Some(nm) ==> label_of(w, e) == seq!['"'] + nm + seq![
            '"',
            ' ',
            '(',
        ] + id_text(e) + seq![')'],
{
}

/// Law: an entity with no component gets no suffix at all; with
/// components, the suffix brackets exactly their short names, one per
/// component, comma-separated, in enumeration order.
pub proof fn lemma_suffix_forms(w: &World, e: Entity)
    ensures
        components_of(w, e).len() == 0 ==> suffix_of(w, e) == Seq::<char>::empty(),
        components_of(w, e).len() > 0 ==> suffix_of(w, e) == seq![':', ' ', '['] + joined(
            short_names_of(w, e),
        ) + seq![']'],
        short_names_of(w, e).len() == components_of(w, e).len(),
        forall|i: int|
            0 <= i < components_of(w, e).len() ==> #[trigger] short_names_of(w, e)[i]
                == short_name_of(components_of(w, e)[i]),
{
}

} // verus!
