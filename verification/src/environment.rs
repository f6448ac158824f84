//! Lexical scopes: a chain of frames, looked up innermost first.
//!
//! The chain lives in an arena: every frame names its parent by index, and
//! parents always come earlier in the arena, so closures can keep a scope
//! alive simply by remembering its index.  The whole store is modelled by
//! `EnvModel`, and every operation is specified as a pure function on that
//! model.

use vstd::prelude::*;

verus! {

use vstd::string::StringExecFns;

use crate::expression_literal_value::{LiteralValue, VModel, vview};
use crate::strutil::str_eq;

/// One lexical scope: parallel name and value columns, and the index of
/// the enclosing scope.
#[derive(Debug)]
pub struct Frame {
    pub names: Vec<String>,
    pub vals: Vec<LiteralValue>,
    pub parent: Option<usize>,
}

/// The scope store: an arena of frames and the index of the scope that is
/// currently innermost.
#[derive(Debug)]
pub struct Environment {
    pub frames: Vec<Frame>,
    pub current: usize,
}

/// The ghost view of one frame.
pub ghost struct FrameModel {
    pub names: Seq<Seq<char>>,
    pub vals: Seq<VModel>,
    pub parent: Option<int>,
}

/// The ghost view of the scope store.
pub ghost struct EnvModel {
    pub frames: Seq<FrameModel>,
    pub current: int,
}

/// The view of a frame.
pub open spec fn frame_view(f: Frame) -> FrameModel {
    FrameModel {
        names: f.names@.map_values(|s: String| s@),
        vals: f.vals@.map_values(|v: LiteralValue| vview(v)),
        parent: match f.parent {
            Option::Some(p) => Option::Some(p as int),
            Option::None => Option::None,
        },
    }
}

/// The view of the scope store.
pub open spec fn env_view(e: Environment) -> EnvModel {
    EnvModel { frames: e.frames@.map_values(|f: Frame| frame_view(f)), current: e.current as int }
}

/// The first index at which `name` is bound in `names`, or `-1`.
pub open spec fn find_name(names: Seq<Seq<char>>, name: Seq<char>, i: int) -> int
    decreases names.len() - i,
{
    if i < 0 || i >= names.len() {
        -1
    } else if names[i] == name {
        i
    } else {
        find_name(names, name, i + 1)
    }
}

impl EnvModel {
    /// Structural sanity: a current frame, parents strictly earlier in the
    /// arena, and name and value columns of equal length.
    pub open spec fn wf(self) -> bool {
        &&& self.frames.len() >= 1
        &&& 0 <= self.current < self.frames.len()
        &&& forall|i: int|
            0 <= i < self.frames.len() ==> (#[trigger] self.frames[i]).names.len()
                == self.frames[i].vals.len()
        &&& forall|i: int|
            0 <= i < self.frames.len() ==> ((#[trigger] self.frames[i]).parent matches Option::Some(
                p,
            ) ==> 0 <= p < i)
    }

    /// The binding of `name` in frame `f` alone.
    pub open spec fn frame_lookup(self, f: int, name: Seq<char>) -> Option<VModel> {
        let idx = find_name(self.frames[f].names, name, 0);
        if 0 <= f < self.frames.len() && 0 <= idx < self.frames[f].vals.len() {
            Option::Some(self.frames[f].vals[idx])
        } else {
            Option::None
        }
    }

    /// The binding of `name` in the chain that starts at frame `f`: the
    /// nearest enclosing scope that defines the name wins.
    pub open spec fn lookup(self, f: int, name: Seq<char>) -> Option<VModel>
        decreases (if f >= 0 {
            f
        } else {
            0
        }),
    {
        if !(0 <= f < self.frames.len()) {
            Option::None
        } else if self.frame_lookup(f, name) is Some {
            self.frame_lookup(f, name)
        } else {
            match self.frames[f].parent {
                Option::Some(p) => if 0 <= p < f {
                    self.lookup(p, name)
                } else {
                    Option::None
                },
                Option::None => Option::None,
            }
        }
    }

    /// The store after defining `name` as `v` in the innermost scope.
    pub open spec fn define_model(self, name: Seq<char>, v: VModel) -> EnvModel {
        let fr = self.frames[self.current];
        let idx = find_name(fr.names, name, 0);
        let fr2 = if 0 <= idx < fr.vals.len() {
            FrameModel { names: fr.names, vals: fr.vals.update(idx, v), parent: fr.parent }
        } else {
            FrameModel { names: fr.names.push(name), vals: fr.vals.push(v), parent: fr.parent }
        };
        EnvModel { frames: self.frames.update(self.current, fr2), current: self.current }
    }

    /// The frame that `assign` would mutate: the nearest frame in the
    /// chain from `f` that binds `name`.
    pub open spec fn assign_frame(self, f: int, name: Seq<char>) -> Option<int>
        decreases (if f >= 0 {
            f
        } else {
            0
        }),
    {
        if !(0 <= f < self.frames.len()) {
            Option::None
        } else if self.frame_lookup(f, name) is Some {
            Option::Some(f)
        } else {
            match self.frames[f].parent {
                Option::Some(p) => if 0 <= p < f {
                    self.assign_frame(p, name)
                } else {
                    Option::None
                },
                Option::None => Option::None,
            }
        }
    }

    /// The store after assigning `name` in frame `f`.
    pub open spec fn assign_model(self, f: int, name: Seq<char>, v: VModel) -> EnvModel {
        let fr = self.frames[f];
        let idx = find_name(fr.names, name, 0);
        let fr2 = FrameModel { names: fr.names, vals: fr.vals.update(idx, v), parent: fr.parent };
        EnvModel { frames: self.frames.update(f, fr2), current: self.current }
    }

    /// The store after opening a fresh scope under frame `parent`.
    pub open spec fn push_scope_model(self, parent: int) -> EnvModel {
        EnvModel {
            frames: self.frames.push(
                FrameModel {
                    names: Seq::empty(),
                    vals: Seq::empty(),
                    parent: Option::Some(parent),
                },
            ),
            current: self.frames.len() as int,
        }
    }

    /// The store with the innermost scope switched to frame `f`.
    pub open spec fn set_current_model(self, f: int) -> EnvModel {
        EnvModel { frames: self.frames, current: f }
    }
}

impl EnvModel {
    /// Full store validity: structure plus validity of every stored value.
    pub open spec fn ok(self) -> bool {
        &&& self.wf()
        &&& forall|i: int, j: int|
            0 <= i < self.frames.len() && 0 <= j < (#[trigger] self.frames[i]).vals.len()
                ==> crate::expression_literal_value::val_ok(
                #[trigger] self.frames[i].vals[j],
                self.frames.len() as int,
            )
    }
}

/// A valid store only hands out valid values.
pub proof fn lemma_lookup_val_ok(m: EnvModel, f: int, name: Seq<char>)
    requires
        m.ok(),
        m.lookup(f, name) is Some,
    ensures
        crate::expression_literal_value::val_ok(m.lookup(f, name)->Some_0, m.frames.len() as int),
    decreases (if f >= 0 {
        f
    } else {
        0
    }),
{
    if 0 <= f < m.frames.len() {
        if m.frame_lookup(f, name) is Some {
            lemma_find_name_bounds(m.frames[f].names, name, 0);
        } else {
            match m.frames[f].parent {
                Option::Some(p) => {
                    if 0 <= p < f {
                        lemma_lookup_val_ok(m, p, name);
                    }
                },
                Option::None => {},
            }
        }
    }
}

/// Defining a valid value keeps the store valid.
pub proof fn lemma_ok_define(m: EnvModel, name: Seq<char>, v: VModel)
    requires
        m.ok(),
        crate::expression_literal_value::val_ok(v, m.frames.len() as int),
    ensures
        m.define_model(name, v).ok(),
        m.define_model(name, v).frames.len() == m.frames.len(),
        m.define_model(name, v).current == m.current,
{
    let m2 = m.define_model(name, v);
    assert forall|i: int, j: int|
        0 <= i < m2.frames.len() && 0 <= j < (#[trigger] m2.frames[i]).vals.len()
            implies crate::expression_literal_value::val_ok(
        #[trigger] m2.frames[i].vals[j],
        m2.frames.len() as int,
    ) by {
        if i != m.current {
            assert(m2.frames[i] == m.frames[i]);
        } else {
            let fr = m.frames[m.current];
            let idx = find_name(fr.names, name, 0);
            if 0 <= idx < fr.vals.len() {
                if j != idx {
                    assert(m2.frames[i].vals[j] == fr.vals[j]);
                }
            } else {
                if j < fr.vals.len() {
                    assert(m2.frames[i].vals[j] == fr.vals[j]);
                } else {
                    assert(m2.frames[i].vals[j] == v);
                }
            }
        }
    }
}

/// Assigning a valid value keeps the store valid.
pub proof fn lemma_ok_assign(m: EnvModel, f: int, name: Seq<char>, v: VModel)
    requires
        m.ok(),
        crate::expression_literal_value::val_ok(v, m.frames.len() as int),
        m.assign_frame(m.current, name) == Option::Some(f),
    ensures
        m.assign_model(f, name, v).ok(),
        m.assign_model(f, name, v).frames.len() == m.frames.len(),
        m.assign_model(f, name, v).current == m.current,
{
    lemma_assign_frame_found(m, m.current, name);
    let m2 = m.assign_model(f, name, v);
    assert forall|i: int, j: int|
        0 <= i < m2.frames.len() && 0 <= j < (#[trigger] m2.frames[i]).vals.len()
            implies crate::expression_literal_value::val_ok(
        #[trigger] m2.frames[i].vals[j],
        m2.frames.len() as int,
    ) by {
        if i != f {
            assert(m2.frames[i] == m.frames[i]);
        } else {
            let fr = m.frames[f];
            let idx = find_name(fr.names, name, 0);
            if j != idx {
                assert(m2.frames[i].vals[j] == fr.vals[j]);
            }
        }
    }
}

/// The frame `assign` picks exists and binds the name.
pub proof fn lemma_assign_frame_found(m: EnvModel, f: int, name: Seq<char>)
    requires
        m.assign_frame(f, name) is Some,
    ensures
        ({
            let fi = m.assign_frame(f, name)->Some_0;
            &&& 0 <= fi < m.frames.len()
            &&& m.frame_lookup(fi, name) is Some
            &&& fi <= f
        }),
    decreases (if f >= 0 {
        f
    } else {
        0
    }),
{
    if 0 <= f < m.frames.len() {
        if m.frame_lookup(f, name) is Some {
        } else {
            match m.frames[f].parent {
                Option::Some(p) => {
                    if 0 <= p < f {
                        lemma_assign_frame_found(m, p, name);
                    }
                },
                Option::None => {},
            }
        }
    }
}

/// Opening a scope keeps the store valid.
pub proof fn lemma_ok_push(m: EnvModel, parent: int)
    requires
        m.ok(),
        0 <= parent < m.frames.len(),
    ensures
        m.push_scope_model(parent).ok(),
        m.push_scope_model(parent).frames.len() == m.frames.len() + 1,
        m.push_scope_model(parent).current == m.frames.len(),
{
    let m2 = m.push_scope_model(parent);
    assert forall|i: int, j: int|
        0 <= i < m2.frames.len() && 0 <= j < (#[trigger] m2.frames[i]).vals.len()
            implies crate::expression_literal_value::val_ok(
        #[trigger] m2.frames[i].vals[j],
        m2.frames.len() as int,
    ) by {
        if i < m.frames.len() {
            assert(m2.frames[i] == m.frames[i]);
            crate::expression_literal_value::lemma_val_ok_grow(
                m.frames[i].vals[j],
                m.frames.len() as int,
                m2.frames.len() as int,
            );
        }
    }
}

/// Switching the innermost scope keeps the store valid.
pub proof fn lemma_ok_set_current(m: EnvModel, f: int)
    requires
        m.ok(),
        0 <= f < m.frames.len(),
    ensures
        m.set_current_model(f).ok(),
{
}

/// The message for reading a name that is nowhere bound.
pub open spec fn undefined_variable_chars(name: Seq<char>) -> Seq<char> {
    "Undefined variable "@ + name
}

/// The message for assigning a name that is nowhere bound.
pub open spec fn missing_variable_chars(name: Seq<char>) -> Seq<char> {
    "Variable does not exist "@ + name
}

impl Environment {
    /// Structural sanity of the store, seen through its view.
    pub open spec fn wf(&self) -> bool {
        env_view(*self).wf()
    }

    /// A store with a single empty global scope.
    pub fn new() -> (r: Environment)
        ensures
            r.wf(),
            env_view(r).frames.len() == 1,
            env_view(r).current == 0,
            env_view(r).frames[0].names.len() == 0,
            env_view(r).frames[0].parent is None,
    {
        let mut frames: Vec<Frame> = Vec::new();
        frames.push(Frame { names: Vec::new(), vals: Vec::new(), parent: Option::None });
        let r = Environment { frames, current: 0 };
        proof {
            assert(env_view(r).frames =~= seq![frame_view(r.frames@[0])]);
            assert(env_view(r).frames[0].names =~= Seq::<Seq<char>>::empty());
            assert(env_view(r).frames[0].vals =~= Seq::<VModel>::empty());
        }
        r
    }

    /// The index of `name` in frame `f` of the store, or none.
    fn find_in_frame(&self, f: usize, name: &str) -> (r: Option<usize>)
        requires
            self.wf(),
            f < self.frames@.len(),
        ensures
            ({
                let idx = find_name(env_view(*self).frames[f as int].names, name@, 0);
                match r {
                    Option::Some(i) => idx == i as int && i < self.frames@[f as int].vals@.len(),
                    Option::None => idx == -1,
                }
            }),
    {
        let frame = &self.frames[f];
        let mut i: usize = 0;
        let ghost names = env_view(*self).frames[f as int].names;
        proof {
            assert(names.len() == frame.names@.len());
        }
        while i < frame.names.len()
            invariant
                self.wf(),
                f < self.frames@.len(),
                frame == self.frames@[f as int],
                names == env_view(*self).frames[f as int].names,
                names.len() == frame.names@.len(),
                frame.names@.len() == frame.vals@.len(),
                i <= frame.names@.len(),
                find_name(names, name@, 0) == find_name(names, name@, i as int),
                forall|j: int| 0 <= j < names.len() ==> names[j] == frame.names@[j]@,
            decreases frame.names@.len() - i,
        {
            let eq = str_eq(frame.names[i].as_str(), name);
            proof {
                assert(names[i as int] == frame.names@[i as int]@);
            }
            if eq {
                proof {
                    assert(find_name(names, name@, i as int) == i as int);
                }
                return Option::Some(i);
            }
            proof {
                assert(find_name(names, name@, i as int) == find_name(names, name@, i as int + 1));
            }
            i = i + 1;
        }
        proof {
            assert(find_name(names, name@, i as int) == -1);
        }
        Option::None
    }

    /// Binds `name` to `value` in the innermost scope, inserting or
    /// overwriting.
    pub fn define(&mut self, name: String, value: LiteralValue)
        requires
            old(self).wf(),
        ensures
            final(self).wf(),
            env_view(*final(self)) == env_view(*old(self)).define_model(name@, vview(value)),
    {
        let ghost pre = env_view(*self);
        let cur = self.current;
        let found = self.find_in_frame(cur, name.as_str());
        let frame = &mut self.frames[cur];
        match found {
            Option::Some(i) => {
                frame.vals.set(i, value);
            },
            Option::None => {
                frame.names.push(name);
                frame.vals.push(value);
            },
        }
        proof {
            let post = env_view(*self);
            let target = pre.define_model(name@, vview(value));
            assert(post.frames[cur as int].names =~= target.frames[cur as int].names);
            assert(post.frames[cur as int].vals =~= target.frames[cur as int].vals);
            assert(post.frames =~= target.frames);
            assert(post == target);
            assert(final(self).wf()) by {
                assert(forall|i: int|
                    0 <= i < post.frames.len() && i != cur as int ==> post.frames[i]
                        == pre.frames[i]);
            }
        }
    }

    /// Reads the nearest binding of `name`, walking from the innermost
    /// scope outward; an unbound name is an error.
    pub fn get(&self, name: &str) -> (r: Result<LiteralValue, String>)
        requires
            self.wf(),
        ensures
            ({
                let looked = env_view(*self).lookup(env_view(*self).current, name@);
                match r {
                    Result::Ok(v) => looked == Option::Some(vview(v)),
                    Result::Err(e) => looked is None && e@ == undefined_variable_chars(name@),
                }
            }),
    {
        let ghost m = env_view(*self);
        let mut f = self.current;
        loop
            invariant
                self.wf(),
                m == env_view(*self),
                f < self.frames@.len(),
                m.lookup(m.current, name@) == m.lookup(f as int, name@),
            decreases f,
        {
            let found = self.find_in_frame(f, name);
            match found {
                Option::Some(i) => {
                    let v = self.frames[f].vals[i].dup();
                    proof {
                        assert(m.frame_lookup(f as int, name@) == Option::Some(
                            m.frames[f as int].vals[i as int],
                        ));
                        assert(m.frames[f as int].vals[i as int] == vview(
                            self.frames@[f as int].vals@[i as int],
                        ));
                    }
                    return Result::Ok(v);
                },
                Option::None => {
                    proof {
                        assert(m.frame_lookup(f as int, name@) is None);
                    }
                    match self.frames[f].parent {
                        Option::Some(p) => {
                            proof {
                                assert(m.frames[f as int].parent == Option::Some(p as int));
                                assert(0 <= p < f);
                            }
                            f = p;
                        },
                        Option::None => {
                            let mut msg = String::new();
                            msg.append("Undefined variable ");
                            msg.append(name);
                            proof {
                                assert(msg@ =~= undefined_variable_chars(name@));
                            }
                            return Result::Err(msg);
                        },
                    }
                },
            }
        }
    }

    /// Mutates the nearest binding of `name`; assigning an unbound name is
    /// an error and leaves the store unchanged.
    pub fn assign(&mut self, name: String, value: LiteralValue) -> (r: Result<(), String>)
        requires
            old(self).wf(),
        ensures
            final(self).wf(),
            ({
                let m = env_view(*old(self));
                match m.assign_frame(m.current, name@) {
                    Option::Some(fi) => r is Ok && env_view(*final(self)) == m.assign_model(
                        fi,
                        name@,
                        vview(value),
                    ),
                    Option::None => r matches Result::Err(e) && e@ == missing_variable_chars(name@)
                        && env_view(*final(self)) == m,
                }
            }),
    {
        let ghost m = env_view(*self);
        let mut f = self.current;
        loop
            invariant
                self.wf(),
                m == env_view(*self),
                m == env_view(*old(self)),
                f < self.frames@.len(),
                m.assign_frame(m.current, name@) == m.assign_frame(f as int, name@),
            decreases f,
        {
            let found = self.find_in_frame(f, name.as_str());
            match found {
                Option::Some(i) => {
                    proof {
                        assert(m.frame_lookup(f as int, name@) is Some);
                        assert(m.assign_frame(f as int, name@) == Option::Some(f as int));
                    }
                    let frame = &mut self.frames[f];
                    frame.vals.set(i, value);
                    proof {
                        let post = env_view(*self);
                        let target = m.assign_model(f as int, name@, vview(value));
                        assert forall|i2: int| 0 <= i2 < post.frames.len() implies post.frames[i2]
                            == target.frames[i2] by {
                            assert(post.frames[i2] == frame_view(self.frames@[i2]));
                            if i2 == f as int {
                                assert(frame_view(self.frames@[i2]).vals =~= target.frames[
                                i2].vals);
                            }
                        }
                        assert(post.frames =~= target.frames);
                        assert(post == target);
                        assert(final(self).wf());
                    }
                    return Result::Ok(());
                },
                Option::None => {
                    proof {
                        assert(m.frame_lookup(f as int, name@) is None);
                        assert(m.frames[f as int] == frame_view(self.frames@[f as int]));
                    }
                    match self.frames[f].parent {
                        Option::Some(p) => {
                            proof {
                                assert(m.frames[f as int].parent == Option::Some(p as int));
                                assert(0 <= p < f);
                                assert(m.assign_frame(f as int, name@) == m.assign_frame(
                                    p as int,
                                    name@,
                                ));
                            }
                            f = p;
                        },
                        Option::None => {
                            proof {
                                assert(m.frames[f as int].parent is None);
                                assert(m.assign_frame(f as int, name@) is None);
                            }
                            let mut msg = String::new();
                            msg.append("Variable does not exist ");
                            msg.append(name.as_str());
                            proof {
                                assert(msg@ =~= missing_variable_chars(name@));
                            }
                            return Result::Err(msg);
                        },
                    }
                },
            }
        }
    }

    /// Opens a fresh scope whose enclosing scope is frame `parent`, and
    /// makes it the innermost.
    pub fn push_scope(&mut self, parent: usize) -> (r: usize)
        requires
            old(self).wf(),
            parent < old(self).frames@.len(),
        ensures
            final(self).wf(),
            env_view(*final(self)) == env_view(*old(self)).push_scope_model(parent as int),
            r == old(self).frames@.len(),
            final(self).current == r,
    {
        let ghost pre = env_view(*self);
        let idx = self.frames.len();
        self.frames.push(Frame { names: Vec::new(), vals: Vec::new(), parent: Option::Some(parent) });
        self.current = idx;
        proof {
            let post = env_view(*self);
            let target = pre.push_scope_model(parent as int);
            assert(frame_view(self.frames@[idx as int]).names =~= Seq::<Seq<char>>::empty());
            assert(frame_view(self.frames@[idx as int]).vals =~= Seq::<VModel>::empty());
            assert(post.frames =~= target.frames);
            assert(post == target);
            assert(final(self).wf()) by {
                assert(forall|i: int|
                    0 <= i < pre.frames.len() ==> post.frames[i] == pre.frames[i]);
            }
        }
        idx
    }

    /// Makes frame `f` the innermost scope again.
    pub fn set_current(&mut self, f: usize)
        requires
            old(self).wf(),
            f < old(self).frames@.len(),
        ensures
            final(self).wf(),
            env_view(*final(self)) == env_view(*old(self)).set_current_model(f as int),
    {
        self.current = f;
    }
}

/// Defining a name and then reading it yields the defined value, whatever
/// the store held before: `define` writes the innermost scope and `get`
/// prefers it.
pub proof fn lemma_define_then_get(m: EnvModel, name: Seq<char>, v: VModel)
    requires
        m.wf(),
    ensures
        m.define_model(name, v).lookup(m.define_model(name, v).current, name) == Option::Some(v),
{
    let m2 = m.define_model(name, v);
    let fr = m.frames[m.current];
    let idx = find_name(fr.names, name, 0);
    lemma_find_name_bounds(fr.names, name, 0);
    if 0 <= idx < fr.vals.len() {
        assert(m2.frames[m2.current].names == fr.names);
        assert(m2.frame_lookup(m2.current, name) == Option::Some(v));
    } else {
        lemma_find_name_pushed(fr.names, name, 0);
        assert(m2.frames[m2.current].names == fr.names.push(name));
        assert(m2.frame_lookup(m2.current, name) == Option::Some(v));
    }
}

/// Defining one name leaves every other name's binding unchanged, in the
/// innermost scope and in the whole chain alike.
pub proof fn lemma_define_preserves_others(m: EnvModel, name: Seq<char>, v: VModel, other: Seq<char>)
    requires
        m.wf(),
        other != name,
    ensures
        m.define_model(name, v).lookup(m.define_model(name, v).current, other) == m.lookup(
            m.current,
            other,
        ),
{
    let m2 = m.define_model(name, v);
    lemma_define_other_chain(m, name, v, other, m.current);
}

/// The chain lookup of an untouched name is stable under `define`.
proof fn lemma_define_other_chain(m: EnvModel, name: Seq<char>, v: VModel, other: Seq<char>, f: int)
    requires
        m.wf(),
        other != name,
        f < m.frames.len(),
    ensures
        m.define_model(name, v).lookup(f, other) == m.lookup(f, other),
    decreases (if f >= 0 {
        f
    } else {
        0
    }),
{
    let m2 = m.define_model(name, v);
    if 0 <= f < m.frames.len() {
        if f == m.current {
            let fr = m.frames[m.current];
            lemma_find_name_other(fr.names, name, other, 0);
            let idx = find_name(fr.names, name, 0);
            lemma_find_name_bounds(fr.names, name, 0);
            lemma_find_name_bounds(fr.names, other, 0);
            if 0 <= idx < fr.vals.len() {
                let j = find_name(fr.names, other, 0);
                if 0 <= j < fr.vals.len() {
                    assert(fr.vals.update(idx, v)[j] == fr.vals[j]) by {
                        assert(j != idx) by {
                            assert(fr.names[idx] == name);
                            assert(0 <= j < fr.names.len() ==> fr.names[j] == other);
                        }
                    }
                }
            } else {
            }
        }
        match m.frames[f].parent {
            Option::Some(p) => {
                if 0 <= p < f {
                    lemma_define_other_chain(m, name, v, other, p);
                    assert(m2.frames[f].parent == m.frames[f].parent);
                }
            },
            Option::None => {
            },
        }
    }
}

/// Assigning succeeds exactly when some enclosing scope binds the name;
/// after `define`, `assign` on the same name always succeeds.
pub proof fn lemma_assign_after_define(m: EnvModel, name: Seq<char>, v: VModel)
    requires
        m.wf(),
    ensures
        m.define_model(name, v).assign_frame(m.define_model(name, v).current, name) is Some,
{
    let m2 = m.define_model(name, v);
    let fr = m.frames[m.current];
    let idx = find_name(fr.names, name, 0);
    lemma_find_name_bounds(fr.names, name, 0);
    if 0 <= idx < fr.vals.len() {
        assert(m2.frame_lookup(m2.current, name) is Some);
    } else {
        lemma_find_name_pushed(fr.names, name, 0);
        assert(m2.frame_lookup(m2.current, name) is Some);
    }
}

/// `find_name` returns either `-1` or an index that carries the name.
proof fn lemma_find_name_bounds(names: Seq<Seq<char>>, name: Seq<char>, i: int)
    requires
        i >= 0,
    ensures
        find_name(names, name, i) == -1 || (i <= find_name(names, name, i) < names.len()
            && names[find_name(names, name, i)] == name),
    decreases names.len() - i,
{
    if i < names.len() && names[i] != name {
        lemma_find_name_bounds(names, name, i + 1);
    }
}

/// Pushing `name` onto a column that lacks it makes `find_name` find the
/// new last slot.
proof fn lemma_find_name_pushed(names: Seq<Seq<char>>, name: Seq<char>, i: int)
    requires
        0 <= i <= names.len(),
        find_name(names, name, i) == -1,
    ensures
        find_name(names.push(name), name, i) == names.len(),
    decreases names.len() - i,
{
    let ns2 = names.push(name);
    if i < names.len() {
        assert(ns2[i] == names[i]);
        lemma_find_name_pushed(names, name, i + 1);
    } else {
        assert(ns2[i] == name);
    }
}

/// Pushing a different name does not change where `find_name` finds this
/// one.
proof fn lemma_find_name_other(names: Seq<Seq<char>>, pushed: Seq<char>, name: Seq<char>, i: int)
    requires
        0 <= i <= names.len(),
        name != pushed,
    ensures
        find_name(names.push(pushed), name, i) == find_name(names, name, i),
    decreases names.len() - i,
{
    let ns2 = names.push(pushed);
    if i < names.len() {
        assert(ns2[i] == names[i]);
        lemma_find_name_other(names, pushed, name, i + 1);
    } else {
        assert(ns2[i] == pushed);
        assert(find_name(ns2, name, i + 1) == -1);
        assert(find_name(ns2, name, i) == -1);
        assert(find_name(names, name, i) == -1);
    }
}

} // verus!
