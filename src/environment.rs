use vstd::prelude::*;

use crate::object::Object;
use crate::token::same_text;

verus! {

/// The bindings of one scope: later entries hide earlier ones of the same name.
pub open spec fn frame_map(b: Seq<(String, Object)>) -> Map<Seq<char>, Object>
    decreases b.len(),
{
    if b.len() == 0 {
        Map::empty()
    } else {
        frame_map(b.drop_last()).insert(b.last().0@, b.last().1)
    }
}

/// The scopes of an environment chain, outermost first.
pub open spec fn env_frames(e: Environment) -> Seq<Map<Seq<char>, Object>>
    decreases e,
{
    match e.outer {
        None => seq![frame_map(e.store@)],
        Some(o) => env_frames(*o).push(frame_map(e.store@)),
    }
}

/// The value of `name` in the innermost scope that binds it; null when none does.
pub open spec fn lookup(frames: Seq<Map<Seq<char>, Object>>, name: Seq<char>) -> Object
    decreases frames.len(),
{
    if frames.len() == 0 {
        Object::NullValue
    } else if frames.last().contains_key(name) {
        frames.last()[name]
    } else {
        lookup(frames.drop_last(), name)
    }
}

/// Binds `name` in the innermost scope only.
pub open spec fn bind_local(
    frames: Seq<Map<Seq<char>, Object>>,
    name: Seq<char>,
    v: Object,
) -> Seq<Map<Seq<char>, Object>> {
    if frames.len() == 0 {
        frames
    } else {
        frames.update(frames.len() - 1, frames.last().insert(name, v))
    }
}

proof fn lemma_frame_map_hit(b: Seq<(String, Object)>, i: int, k: Seq<char>)
    requires
        0 <= i < b.len(),
        b[i].0@ == k,
        forall|j: int| i < j < b.len() ==> (#[trigger] b[j]).0@ != k,
    ensures
        frame_map(b).contains_key(k),
        frame_map(b)[k] == b[i].1,
    decreases b.len(),
{
    if i < b.len() - 1 {
        let c = b.drop_last();
        assert forall|j: int| i < j < c.len() implies (#[trigger] c[j]).0@ != k by {
            assert(c[j] == b[j]);
        }
        lemma_frame_map_hit(c, i, k);
    }
}

proof fn lemma_frame_map_absent(b: Seq<(String, Object)>, k: Seq<char>)
    requires
        forall|j: int| 0 <= j < b.len() ==> (#[trigger] b[j]).0@ != k,
    ensures
        !frame_map(b).contains_key(k),
    decreases b.len(),
{
    if b.len() > 0 {
        let c = b.drop_last();
        assert forall|j: int| 0 <= j < c.len() implies (#[trigger] c[j]).0@ != k by {
            assert(c[j] == b[j]);
        }
        lemma_frame_map_absent(c, k);
    }
}

proof fn lemma_frame_map_replace(b: Seq<(String, Object)>, i: int, x: (String, Object))
    requires
        0 <= i < b.len(),
        b[i].0@ == x.0@,
        forall|j: int| i < j < b.len() ==> (#[trigger] b[j]).0@ != x.0@,
    ensures
        frame_map(b.update(i, x)) == frame_map(b).insert(x.0@, x.1),
    decreases b.len(),
{
    let c = b.drop_last();
    if i == b.len() - 1 {
        assert(b.update(i, x).drop_last() =~= c);
        assert(frame_map(b.update(i, x)) =~= frame_map(b).insert(x.0@, x.1));
    } else {
        assert forall|j: int| i < j < c.len() implies (#[trigger] c[j]).0@ != x.0@ by {
            assert(c[j] == b[j]);
        }
        lemma_frame_map_replace(c, i, x);
        assert(b.update(i, x).drop_last() =~= c.update(i, x));
        assert(frame_map(b.update(i, x)) =~= frame_map(b).insert(x.0@, x.1));
    }
}

/// A scope's bindings, linked to the scope that encloses it.
#[derive(Debug)]
pub struct Environment {
    pub store: Vec<(String, Object)>,
    pub outer: Option<Box<Environment>>,
}

impl View for Environment {
    type V = Seq<Map<Seq<char>, Object>>;

    open spec fn view(&self) -> Seq<Map<Seq<char>, Object>> {
        env_frames(*self)
    }
}

impl Environment {
    /// An environment with one empty scope and no enclosing one.
    pub fn new() -> (r: Environment)
        ensures
            r@ == seq![Map::<Seq<char>, Object>::empty()],
            r.outer is None,
            r.store@.len() == 0,
    {
        let r = Environment { store: Vec::new(), outer: None };
        assert(r@ =~= seq![Map::<Seq<char>, Object>::empty()]);
        r
    }

    /// The value bound to `name` in the nearest scope that binds it, searching
    /// outward; null when no scope does.
    pub fn get(&self, name: &str) -> (r: Object)
        ensures
            r == lookup(self@, name@),
        decreases self,
    {
        let mut i = self.store.len();
        while i > 0
            invariant
                i <= self.store@.len(),
                forall|j: int| i <= j < self.store@.len() ==> (#[trigger] self.store@[j]).0@
                    != name@,
            decreases i,
        {
            i = i - 1;
            if same_text(self.store[i].0.as_str(), name) {
                proof {
                    lemma_frame_map_hit(self.store@, i as int, name@);
                }
                return self.store[i].1;
            }
        }
        proof {
            lemma_frame_map_absent(self.store@, name@);
        }
        match &self.outer {
            Some(o) => {
                assert(self@ == o@.push(frame_map(self.store@)));
                assert(self@.drop_last() =~= o@);
                o.get(name)
            },
            None => {
                assert(self@ == seq![frame_map(self.store@)]);
                assert(self@.drop_last() =~= Seq::<Map<Seq<char>, Object>>::empty());
                assert(lookup(self@.drop_last(), name@) == Object::NullValue);
                Object::NullValue
            },
        }
    }

    /// Binds `name` in this scope, replacing a binding of it here; the
    /// enclosing scopes are left as they are.
    pub fn set(&mut self, name: String, value: Object)
        ensures
            final(self)@ == bind_local(old(self)@, name@, value),
            final(self).outer == old(self).outer,
    {
        let mut i = self.store.len();
        while i > 0
            invariant
                i <= self.store@.len(),
                self.store@ == old(self).store@,
                self.outer == old(self).outer,
                forall|j: int| i <= j < self.store@.len() ==> (#[trigger] self.store@[j]).0@
                    != name@,
            decreases i,
        {
            i = i - 1;
            if same_text(self.store[i].0.as_str(), name.as_str()) {
                proof {
                    lemma_frame_map_replace(self.store@, i as int, (name, value));
                }
                self.store.set(i, (name, value));
                assert(self@ =~= bind_local(old(self)@, name@, value));
                return;
            }
        }
        proof {
            lemma_frame_map_absent(self.store@, name@);
        }
        let ghost b = self.store@;
        self.store.push((name, value));
        assert(self.store@.drop_last() =~= b);
        assert(self@ =~= bind_local(old(self)@, name@, value));
    }
}

} // verus!
