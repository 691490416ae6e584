use vstd::prelude::*;
use crate::error::{RuntimeError, RuntimeErrorModel};
use crate::token::{SpecValue, Token, Value};

verus! {

/// Model of one scope frame: the bindings made in it, oldest first.  A name
/// may be bound several times; the latest binding is the visible one, so a
/// redeclaration in the same scope silently overwrites.
pub type FrameModel = Seq<(Seq<char>, SpecValue)>;

/// Model of a scope chain: the frames from the global scope at index 0 to
/// the innermost scope at the end.
pub type EnvModel = Seq<FrameModel>;

/// The visible binding of `name` in one frame: the latest one, if any.
pub open spec fn frame_find(f: FrameModel, name: Seq<char>) -> Option<SpecValue>
    decreases f.len(),
{
    if f.len() == 0 {
        None
    } else if f.last().0 == name {
        Some(f.last().1)
    } else {
        frame_find(f.drop_last(), name)
    }
}

/// One frame with its visible binding of `name` replaced by `value`, or
/// `None` if the frame does not bind `name`.
pub open spec fn frame_set(f: FrameModel, name: Seq<char>, value: SpecValue) -> Option<FrameModel>
    decreases f.len(),
{
    if f.len() == 0 {
        None
    } else if f.last().0 == name {
        Some(f.drop_last().push((name, value)))
    } else {
        match frame_set(f.drop_last(), name, value) {
            Some(g) => Some(g.push(f.last())),
            None => None,
        }
    }
}

/// Lookup along the scope chain: the innermost frame that binds `name`
/// wins; absence at the outermost scope is absence everywhere.
pub open spec fn env_find(env: EnvModel, name: Seq<char>) -> Option<SpecValue>
    decreases env.len(),
{
    if env.len() == 0 {
        None
    } else {
        match frame_find(env.last(), name) {
            Some(v) => Some(v),
            None => env_find(env.drop_last(), name),
        }
    }
}

/// Assignment along the scope chain: the innermost frame that binds `name`
/// has that binding replaced; `None` if no frame binds it.  Assignment never
/// implicitly declares.
pub open spec fn env_set(env: EnvModel, name: Seq<char>, value: SpecValue) -> Option<EnvModel>
    decreases env.len(),
{
    if env.len() == 0 {
        None
    } else {
        match frame_set(env.last(), name, value) {
            Some(g) => Some(env.drop_last().push(g)),
            None => match env_set(env.drop_last(), name, value) {
                Some(e) => Some(e.push(env.last())),
                None => None,
            },
        }
    }
}

/// Declaration: binds `name` in the innermost frame.
pub open spec fn env_define(env: EnvModel, name: Seq<char>, value: SpecValue) -> EnvModel
    recommends
        env.len() >= 1,
{
    env.update(env.len() - 1, env.last().push((name, value)))
}

/// The model of one executable frame.
pub open spec fn frame_view(f: Seq<(String, Value)>) -> FrameModel {
    f.map(|i: int, p: (String, Value)| (p.0@, p.1@))
}

/// A chain of lexical scopes.  The chain always holds at least the global
/// frame; a block pushes a frame on entry and pops it on exit.
pub struct Environment {
    frames: Vec<Vec<(String, Value)>>,
}

impl View for Environment {
    type V = EnvModel;

    closed spec fn view(&self) -> EnvModel {
        self.frames@.map(|i: int, f: Vec<(String, Value)>| frame_view(f@))
    }
}

proof fn lemma_frame_set_hit(f: FrameModel, name: Seq<char>, value: SpecValue, j: int)
    requires
        0 <= j < f.len(),
        f[j].0 == name,
        forall|k: int| j < k < f.len() ==> f[k].0 != name,
    ensures
        frame_set(f, name, value) == Some(f.update(j, (name, value))),
    decreases f.len(),
{
    if j == f.len() - 1 {
        assert(f.drop_last().push((name, value)) =~= f.update(j, (name, value)));
    } else {
        assert(f.last().0 != name);
        lemma_frame_set_hit(f.drop_last(), name, value, j);
        assert(f.drop_last().update(j, (name, value)).push(f.last()) =~= f.update(
            j,
            (name, value),
        ));
    }
}

proof fn lemma_frame_set_miss(f: FrameModel, name: Seq<char>, value: SpecValue)
    requires
        forall|k: int| 0 <= k < f.len() ==> f[k].0 != name,
    ensures
        frame_set(f, name, value) is None,
    decreases f.len(),
{
    if f.len() > 0 {
        lemma_frame_set_miss(f.drop_last(), name, value);
    }
}

/// A frame accepts an assignment exactly where a lookup succeeds.
pub proof fn lemma_frame_set_find_agree(f: FrameModel, name: Seq<char>, value: SpecValue)
    ensures
        (frame_set(f, name, value) is None) <==> (frame_find(f, name) is None),
    decreases f.len(),
{
    if f.len() > 0 && f.last().0 != name {
        lemma_frame_set_find_agree(f.drop_last(), name, value);
    }
}

/// The chain accepts an assignment exactly where a lookup succeeds:
/// assignment never implicitly declares, and a bound name can always be
/// assigned.
pub proof fn lemma_env_set_find_agree(env: EnvModel, name: Seq<char>, value: SpecValue)
    ensures
        (env_set(env, name, value) is None) <==> (env_find(env, name) is None),
    decreases env.len(),
{
    if env.len() > 0 {
        lemma_frame_set_find_agree(env.last(), name, value);
        lemma_env_set_find_agree(env.drop_last(), name, value);
    }
}

proof fn lemma_env_find_at(env: EnvModel, name: Seq<char>, d: int)
    requires
        0 <= d < env.len(),
        frame_find(env[d], name) is Some,
        forall|k: int| d < k < env.len() ==> frame_find(env[k], name) is None,
    ensures
        env_find(env, name) == frame_find(env[d], name),
    decreases env.len(),
{
    if d < env.len() - 1 {
        lemma_env_find_at(env.drop_last(), name, d);
    }
}

proof fn lemma_env_find_none(env: EnvModel, name: Seq<char>)
    requires
        forall|k: int| 0 <= k < env.len() ==> frame_find(env[k], name) is None,
    ensures
        env_find(env, name) is None,
    decreases env.len(),
{
    if env.len() > 0 {
        lemma_env_find_none(env.drop_last(), name);
    }
}

proof fn lemma_env_set_at(env: EnvModel, name: Seq<char>, value: SpecValue, d: int, g: FrameModel)
    requires
        0 <= d < env.len(),
        frame_set(env[d], name, value) == Some(g),
        forall|k: int| d < k < env.len() ==> frame_set(env[k], name, value) is None,
    ensures
        env_set(env, name, value) == Some(env.update(d, g)),
    decreases env.len(),
{
    if d == env.len() - 1 {
        assert(env.drop_last().push(g) =~= env.update(d, g));
    } else {
        lemma_env_set_at(env.drop_last(), name, value, d, g);
        assert(env.drop_last().update(d, g).push(env.last()) =~= env.update(d, g));
    }
}

proof fn lemma_env_set_none(env: EnvModel, name: Seq<char>, value: SpecValue)
    requires
        forall|k: int| 0 <= k < env.len() ==> frame_set(env[k], name, value) is None,
    ensures
        env_set(env, name, value) is None,
    decreases env.len(),
{
    if env.len() > 0 {
        lemma_env_set_none(env.drop_last(), name, value);
    }
}

/// The visible binding of `name` in one executable frame.
fn frame_get(f: &Vec<(String, Value)>, name: &String) -> (r: Option<Value>)
    ensures
        match r {
            Some(v) => frame_find(frame_view(f@), name@) == Some(v@),
            None => frame_find(frame_view(f@), name@) is None,
        },
{
    let ghost fv = frame_view(f@);
    let mut i: usize = f.len();
    proof {
        assert(fv.subrange(0, i as int) =~= fv);
    }
    while i > 0
        invariant
            i <= f.len(),
            fv == frame_view(f@),
            frame_find(fv, name@) == frame_find(fv.subrange(0, i as int), name@),
        decreases i,
    {
        let j: usize = i - 1;
        if f[j].0 == *name {
            proof {
                assert(fv.subrange(0, i as int).last() == fv[j as int]);
            }
            return Some(f[j].1.clone());
        }
        proof {
            assert(fv.subrange(0, i as int).last() == fv[j as int]);
            assert(fv.subrange(0, i as int).drop_last() =~= fv.subrange(0, j as int));
        }
        i = j;
    }
    proof {
        assert(fv.subrange(0, 0) =~= Seq::<(Seq<char>, SpecValue)>::empty());
    }
    None
}

/// Replaces the visible binding of `name` in one executable frame, if any.
fn frame_put(f: &mut Vec<(String, Value)>, name: &String, value: Value) -> (r: bool)
    ensures
        match frame_set(frame_view(old(f)@), name@, value@) {
            Some(g) => r == true && frame_view(final(f)@) == g,
            None => r == false && final(f)@ == old(f)@,
        },
{
    let ghost fv = frame_view(f@);
    let mut i: usize = f.len();
    while i > 0
        invariant
            i <= f.len(),
            f@ == old(f)@,
            fv == frame_view(f@),
            forall|k: int| i <= k < fv.len() ==> fv[k].0 != name@,
        decreases i,
    {
        let j: usize = i - 1;
        if f[j].0 == *name {
            let elem: &mut (String, Value) = &mut f[j];
            *elem = (name.clone(), value);
            proof {
                assert(frame_view(f@) =~= fv.update(j as int, (name@, value@)));
                lemma_frame_set_hit(fv, name@, value@, j as int);
            }
            return true;
        }
        i = j;
    }
    proof {
        lemma_frame_set_miss(fv, name@, value@);
    }
    false
}

impl Environment {
    /// The chain always holds at least the global frame.
    pub open spec fn well_formed(&self) -> bool {
        self@.len() >= 1
    }

    /// A fresh chain of one empty global frame.
    pub fn new() -> (r: Environment)
        ensures
            r@ == seq![Seq::<(Seq<char>, SpecValue)>::empty()],
            r.well_formed(),
    {
        let mut frames: Vec<Vec<(String, Value)>> = Vec::new();
        frames.push(Vec::new());
        let r = Environment { frames };
        proof {
            assert(r@ =~~= seq![Seq::<(Seq<char>, SpecValue)>::empty()]);
        }
        r
    }

    /// Binds `name` to `value` in the innermost frame.
    pub fn define(&mut self, name: String, value: Value)
        requires
            old(self).well_formed(),
        ensures
            final(self)@ == env_define(old(self)@, name@, value@),
            final(self).well_formed(),
    {
        let k: usize = self.frames.len() - 1;
        let fr: &mut Vec<(String, Value)> = &mut self.frames[k];
        fr.push((name, value));
        proof {
            assert(self@ =~~= env_define(old(self)@, name@, value@));
        }
    }

    /// A child chain whose innermost scope is fresh and empty.
    pub fn enclose(parent: Environment) -> (r: Environment)
        ensures
            r@ == parent@.push(Seq::<(Seq<char>, SpecValue)>::empty()),
    {
        let mut r = parent;
        r.push_scope();
        r
    }

    /// Opens a block scope.
    pub fn push_scope(&mut self)
        ensures
            final(self)@ == old(self)@.push(Seq::<(Seq<char>, SpecValue)>::empty()),
            final(self).well_formed(),
    {
        self.frames.push(Vec::new());
        proof {
            assert(self@ =~~= old(self)@.push(Seq::<(Seq<char>, SpecValue)>::empty()));
        }
    }

    /// Closes the innermost block scope, discarding its bindings; the outer
    /// frames keep every change made through assignment.
    pub fn pop_scope(&mut self)
        requires
            old(self)@.len() >= 2,
        ensures
            final(self)@ == old(self)@.drop_last(),
            final(self).well_formed(),
    {
        let _ = self.frames.pop();
        proof {
            assert(self@ =~~= old(self)@.drop_last());
        }
    }

    /// The value of `name`, from the innermost frame outward; an
    /// `UndefinedVariable` error if no frame binds it.
    pub fn get(&self, name: &Token) -> (r: Result<Value, RuntimeError>)
        ensures
            match env_find(self@, name@.lexeme) {
                Some(v) => r matches Ok(got) && got@ == v,
                None => r matches Err(e) && e@ == RuntimeErrorModel::UndefinedVariable(
                    name@.lexeme,
                ),
            },
    {
        let key: String = name.lexeme_string();
        let mut i: usize = self.frames.len();
        while i > 0
            invariant
                i <= self.frames.len(),
                key@ == name@.lexeme,
                forall|k: int| i <= k < self@.len() ==> frame_find(self@[k], key@) is None,
            decreases i,
        {
            let j: usize = i - 1;
            match frame_get(&self.frames[j], &key) {
                Some(v) => {
                    proof {
                        lemma_env_find_at(self@, key@, j as int);
                    }
                    return Ok(v);
                },
                None => {},
            }
            i = j;
        }
        proof {
            lemma_env_find_none(self@, key@);
        }
        Err(RuntimeError::UndefinedVariable(key))
    }

    /// Replaces the binding of `name` in the innermost frame that holds one;
    /// an `UndefinedVariable` error, with the chain unchanged, if no frame
    /// binds it.  Returns the assigned value on success.
    pub fn assign(&mut self, name: &Token, value: Value) -> (r: Result<Value, RuntimeError>)
        ensures
            match env_set(old(self)@, name@.lexeme, value@) {
                Some(e) => final(self)@ == e && (r matches Ok(got) && got@ == value@),
                None => final(self)@ == old(self)@ && (r matches Err(err) && err@
                    == RuntimeErrorModel::UndefinedVariable(name@.lexeme)),
            },
    {
        let key: String = name.lexeme_string();
        let mut i: usize = self.frames.len();
        while i > 0
            invariant
                i <= self.frames.len(),
                key@ == name@.lexeme,
                self@ == old(self)@,
                self.frames@.len() == old(self).frames@.len(),
                forall|k: int| i <= k < self@.len() ==> frame_set(self@[k], key@, value@) is None,
            decreases i,
        {
            let j: usize = i - 1;
            let ghost env0 = self@;
            let fr: &mut Vec<(String, Value)> = &mut self.frames[j];
            let hit = frame_put(fr, &key, value.clone());
            if hit {
                proof {
                    let g = frame_set(env0[j as int], key@, value@);
                    assert(g is Some);
                    assert(self@ =~= env0.update(j as int, g->Some_0));
                    lemma_env_set_at(env0, key@, value@, j as int, g->Some_0);
                }
                return Ok(value);
            }
            proof {
                assert(self@ =~= env0);
            }
            i = j;
        }
        proof {
            lemma_env_set_none(self@, key@, value@);
        }
        Err(RuntimeError::UndefinedVariable(key))
    }
}

} // verus!
