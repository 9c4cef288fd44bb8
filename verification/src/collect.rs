use vstd::prelude::*;
use crate::gc::Gc;
use crate::memory::{Object, Upvalue, Value};
use crate::vm::{at, kind, object_ok, valid_value, heap_ok, Fiber, Kind};

verus! {

/// The object a value refers to, if it refers to one.
pub open spec fn value_ref<N: Copy>(v: Value<N>) -> Option<Gc> {
    match v {
        Value::String(g) => Some(g),
        Value::Closure(g) => Some(g),
        Value::BoundMethod(g) => Some(g),
        Value::NativeFunction(g) => Some(g),
        Value::Class(g) => Some(g),
        Value::Instance(g) => Some(g),
        Value::Import(g) => Some(g),
        Value::List(g) => Some(g),
        _ => None,
    }
}

/// Object `o` refers to object `g`.
pub open spec fn refers<N: Copy>(o: Object<N>, g: Gc) -> bool {
    match o {
        Object::Closure(c) => g == c.function.import || c.upvalues@.contains(g),
        Object::BoundMethod(b) => g == b.receiver || g == b.method,
        Object::Class(c) => exists|k: u32| #[trigger] c.methods.spec_map().contains_key(k) && c.methods.spec_map()[k] == g,
        Object::Instance(i) => g == i.class || exists|k: u32| #[trigger] i.fields.spec_map().contains_key(k)
            && value_ref(i.fields.spec_map()[k]) == Some(g),
        Object::Import(m) => exists|k: u32| #[trigger] m.globals.spec_map().contains_key(k)
            && value_ref(m.globals.spec_map()[k]) == Some(g),
        Object::Upvalue(Upvalue::Closed(v)) => value_ref(v) == Some(g),
        Object::List(l) => exists|j: int| 0 <= j < l.items@.len() && value_ref(#[trigger] l.items@[j]) == Some(g),
        _ => false,
    }
}

/// The number of `false` in `s`.
pub open spec fn count_false(s: Seq<bool>) -> nat
    decreases s.len(),
{
    if s.len() == 0 {
        0
    } else {
        count_false(s.drop_last()) + if s.last() { 0nat } else { 1nat }
    }
}

/// Setting one `false` to `true` leaves one `false` fewer.
proof fn lemma_count_false_set(s: Seq<bool>, i: int)
    requires
        0 <= i < s.len(),
        !s[i],
    ensures
        count_false(s.update(i, true)) + 1 == count_false(s),
    decreases s.len(),
{
    let u = s.update(i, true);
    if i == s.len() - 1 {
        assert(u.drop_last() =~= s.drop_last());
    } else {
        assert(u.drop_last() =~= s.drop_last().update(i, true));
        lemma_count_false_set(s.drop_last(), i);
    }
}

/// An object whose references all keep their objects stays well formed.
proof fn lemma_object_ok_refs<N: Copy>(a: Seq<Object<N>>, b: Seq<Object<N>>, o: Object<N>)
    requires
        object_ok(a, o),
        a.len() == b.len(),
        forall|g: Gc| refers(o, g) && g.index < a.len() ==> b[g.index as int] == a[g.index as int],
    ensures
        object_ok(b, o),
{
    match o {
        Object::Closure(c) => {
            assert(refers(o, c.function.import));
            assert forall|j: int| 0 <= j < c.upvalues@.len() implies at(b, #[trigger] c.upvalues@[j], Kind::Upvalue) by {
                assert(c.upvalues@.contains(c.upvalues@[j]));
                assert(refers(o, c.upvalues@[j]));
            }
        },
        Object::BoundMethod(m) => {
            assert(refers(o, m.receiver));
            assert(refers(o, m.method));
        },
        Object::Class(c) => {
            assert forall|k: u32| #[trigger] c.methods.spec_map().contains_key(k)
                implies at(b, c.methods.spec_map()[k], Kind::Closure) by {
                assert(refers(o, c.methods.spec_map()[k]));
            }
        },
        Object::Instance(i) => {
            assert(refers(o, i.class));
            assert forall|k: u32| #[trigger] i.fields.spec_map().contains_key(k)
                implies valid_value(b, i.fields.spec_map()[k]) by {
                let v = i.fields.spec_map()[k];
                if let Some(g) = value_ref(v) {
                    assert(refers(o, g));
                }
            }
        },
        Object::Import(m) => {
            assert forall|k: u32| #[trigger] m.globals.spec_map().contains_key(k)
                implies valid_value(b, m.globals.spec_map()[k]) by {
                let v = m.globals.spec_map()[k];
                if let Some(g) = value_ref(v) {
                    assert(refers(o, g));
                }
            }
        },
        Object::Upvalue(u) => {
            if let Upvalue::Closed(v) = u {
                if let Some(g) = value_ref(v) {
                    assert(refers(o, g));
                }
            }
        },
        Object::List(l) => {
            assert forall|j: int| 0 <= j < l.items@.len() implies valid_value(b, #[trigger] l.items@[j]) by {
                if let Some(g) = value_ref(l.items@[j]) {
                    assert(refers(o, g));
                }
            }
        },
        _ => {},
    }
}

/// The object `v` refers to, if any.
pub fn value_ref_of<N: Copy>(v: Value<N>) -> (res: Option<Gc>)
    ensures
        res == value_ref(v),
{
    match v {
        Value::String(g) => Some(g),
        Value::Closure(g) => Some(g),
        Value::BoundMethod(g) => Some(g),
        Value::NativeFunction(g) => Some(g),
        Value::Class(g) => Some(g),
        Value::Instance(g) => Some(g),
        Value::Import(g) => Some(g),
        Value::List(g) => Some(g),
        _ => None,
    }
}

/// Some value of `values` refers to object `x`.
pub open spec fn refers_among<N: Copy>(values: Seq<Value<N>>, x: usize) -> bool {
    exists|m: int| 0 <= m < values.len() && value_ref(#[trigger] values[m]) == Some(Gc { index: x })
}

/// Appends to `out` the objects the values refer to that lie below
/// `bound`.
fn push_value_refs<N: Copy>(out: &mut Vec<usize>, values: &Vec<Value<N>>, bound: usize)
    ensures
        old(out)@.len() <= final(out)@.len(),
        forall|j: int| old(out)@.len() <= j < final(out)@.len() ==> refers_among(values@, #[trigger] final(out)@[j]),
        forall|j: int| 0 <= j < old(out)@.len() ==> #[trigger] final(out)@[j] == old(out)@[j],
        forall|j: int| old(out)@.len() <= j < final(out)@.len() ==> #[trigger] final(out)@[j] < bound,
        forall|v: Value<N>| #[trigger] values@.contains(v) && value_ref(v) is Some && value_ref(v)->Some_0.index < bound
            ==> final(out)@.subrange(old(out)@.len() as int, final(out)@.len() as int).contains(value_ref(v)->Some_0.index),
{
    let start = out.len();
    let mut i: usize = 0;
    while i < values.len()
        invariant
            i <= values@.len(),
            start == old(out)@.len(),
            start <= out@.len(),
            forall|j: int| 0 <= j < start ==> #[trigger] out@[j] == old(out)@[j],
            forall|j: int| start <= j < out@.len() ==> #[trigger] out@[j] < bound,
            forall|j: int| start <= j < out@.len() ==> refers_among(values@, #[trigger] out@[j]),
            forall|m: int| 0 <= m < i && value_ref(#[trigger] values@[m]) is Some && value_ref(values@[m])->Some_0.index < bound
                ==> out@.subrange(start as int, out@.len() as int).contains(value_ref(values@[m])->Some_0.index),
        decreases values@.len() - i,
    {
        let ghost before = out@;
        match value_ref_of(values[i]) {
            Some(g) => {
                if g.index < bound {
                    out.push(g.index);
                    proof {
                        assert forall|j: int| start <= j < out@.len() implies refers_among(values@, #[trigger] out@[j]) by {
                            if j < before.len() {
                                assert(out@[j] == before[j]);
                            } else {
                                assert(value_ref(values@[i as int]) == Some(Gc { index: out@[j] }));
                            }
                        }
                        assert forall|m: int| 0 <= m < i + 1 && value_ref(#[trigger] values@[m]) is Some
                            && value_ref(values@[m])->Some_0.index < bound
                            implies out@.subrange(start as int, out@.len() as int).contains(value_ref(values@[m])->Some_0.index) by {
                            let x = value_ref(values@[m])->Some_0.index;
                            if m < i {
                                let w = choose|w: int| 0 <= w < before.subrange(start as int, before.len() as int).len()
                                    && before.subrange(start as int, before.len() as int)[w] == x;
                                assert(out@.subrange(start as int, out@.len() as int)[w] == x);
                            } else {
                                assert(out@.subrange(start as int, out@.len() as int)[before.len() - start] == x);
                            }
                        }
                    }
                }
            },
            None => {},
        }
        i = i + 1;
    }
    proof {
        assert forall|v: Value<N>| #[trigger] values@.contains(v) && value_ref(v) is Some && value_ref(v)->Some_0.index < bound
            implies out@.subrange(start as int, out@.len() as int).contains(value_ref(v)->Some_0.index) by {
            let m = choose|m: int| 0 <= m < values@.len() && values@[m] == v;
            assert(value_ref(values@[m]) is Some);
        }
    }
}

/// A sequence that extends `a` keeps what `a` contains.
proof fn lemma_prefix_contains(a: Seq<usize>, b: Seq<usize>, x: usize)
    requires
        a.len() <= b.len(),
        forall|j: int| 0 <= j < a.len() ==> #[trigger] b[j] == a[j],
        a.contains(x),
    ensures
        b.contains(x),
{
    let w = choose|w: int| 0 <= w < a.len() && a[w] == x;
    assert(b[w] == x);
}

/// Taking the last entry off keeps every other entry.
proof fn lemma_pop_contains(a: Seq<usize>, x: usize)
    requires
        a.len() > 0,
        a.contains(x),
        x != a.last(),
    ensures
        a.drop_last().contains(x),
{
    let w = choose|w: int| 0 <= w < a.len() && a[w] == x;
    assert(w != a.len() - 1);
    assert(a.drop_last()[w] == x);
}

/// Appends to `out` the indices of the objects below `bound`.
fn push_gc_refs(out: &mut Vec<usize>, gcs: &Vec<Gc>, bound: usize)
    ensures
        old(out)@.len() <= final(out)@.len(),
        forall|j: int| old(out)@.len() <= j < final(out)@.len() ==> gcs@.contains(Gc { index: #[trigger] final(out)@[j] }),
        forall|j: int| 0 <= j < old(out)@.len() ==> #[trigger] final(out)@[j] == old(out)@[j],
        forall|j: int| old(out)@.len() <= j < final(out)@.len() ==> #[trigger] final(out)@[j] < bound,
        forall|g: Gc| #[trigger] gcs@.contains(g) && g.index < bound
            ==> final(out)@.subrange(old(out)@.len() as int, final(out)@.len() as int).contains(g.index),
{
    let start = out.len();
    let mut i: usize = 0;
    while i < gcs.len()
        invariant
            i <= gcs@.len(),
            start == old(out)@.len(),
            start <= out@.len(),
            forall|j: int| 0 <= j < start ==> #[trigger] out@[j] == old(out)@[j],
            forall|j: int| start <= j < out@.len() ==> #[trigger] out@[j] < bound,
            forall|j: int| start <= j < out@.len() ==> gcs@.contains(Gc { index: #[trigger] out@[j] }),
            forall|m: int| 0 <= m < i && (#[trigger] gcs@[m]).index < bound
                ==> out@.subrange(start as int, out@.len() as int).contains(gcs@[m].index),
        decreases gcs@.len() - i,
    {
        let ghost before = out@;
        let g = gcs[i];
        if g.index < bound {
            out.push(g.index);
            proof {
                assert forall|j: int| start <= j < out@.len() implies gcs@.contains(Gc { index: #[trigger] out@[j] }) by {
                    if j < before.len() {
                        assert(out@[j] == before[j]);
                    } else {
                        assert(gcs@[i as int] == Gc { index: out@[j] });
                    }
                }
                assert forall|m: int| 0 <= m < i + 1 && (#[trigger] gcs@[m]).index < bound
                    implies out@.subrange(start as int, out@.len() as int).contains(gcs@[m].index) by {
                    let x = gcs@[m].index;
                    if m < i {
                        let w = choose|w: int| 0 <= w < before.subrange(start as int, before.len() as int).len()
                            && before.subrange(start as int, before.len() as int)[w] == x;
                        assert(out@.subrange(start as int, out@.len() as int)[w] == x);
                    } else {
                        assert(out@.subrange(start as int, out@.len() as int)[before.len() - start] == x);
                    }
                }
            }
        }
        i = i + 1;
    }
    proof {
        assert forall|g: Gc| #[trigger] gcs@.contains(g) && g.index < bound
            implies out@.subrange(start as int, out@.len() as int).contains(g.index) by {
            let m = choose|m: int| 0 <= m < gcs@.len() && gcs@[m] == g;
            assert(gcs@[m].index < bound);
        }
    }
}

impl<N: Copy> Fiber<N> {
    /// Appends to `out` the indices of the objects that object `i` refers
    /// to.
    pub fn push_references(&self, i: usize, out: &mut Vec<usize>)
        requires
            self.wf(),
            i < self.heap().len(),
        ensures
            old(out)@.len() <= final(out)@.len(),
            forall|j: int| 0 <= j < old(out)@.len() ==> #[trigger] final(out)@[j] == old(out)@[j],
            forall|j: int| old(out)@.len() <= j < final(out)@.len() ==> #[trigger] final(out)@[j] < self.heap().len(),
            forall|g: Gc| #[trigger] refers(self.heap()[i as int], g)
                ==> g.index < self.heap().len()
                && final(out)@.subrange(old(out)@.len() as int, final(out)@.len() as int).contains(g.index),
            forall|j: int| old(out)@.len() <= j < final(out)@.len()
                ==> refers(self.heap()[i as int], Gc { index: #[trigger] final(out)@[j] }),
    {
        let bound = self.objects.len();
        let start = out.len();
        proof {
            assert(object_ok(self.heap(), self.heap()[i as int]));
        }
        match &self.objects[i] {
            Object::Closure(c) => {
                out.push(c.function.import.index);
                let mid = out.len();
                push_gc_refs(out, &c.upvalues, bound);
                proof {
                    let o = self.heap()[i as int];
                    assert forall|j: int| start <= j < out@.len() implies refers(o, Gc { index: #[trigger] out@[j] }) by {
                        if j == start {
                            assert(Gc { index: out@[j] } == c.function.import);
                        } else {
                            assert(c.upvalues@.contains(Gc { index: out@[j] }));
                        }
                    }
                    assert forall|g: Gc| #[trigger] refers(o, g) implies g.index < bound
                        && out@.subrange(start as int, out@.len() as int).contains(g.index) by {
                        if g == c.function.import {
                            assert(out@.subrange(start as int, out@.len() as int)[0] == g.index);
                        } else {
                            assert(c.upvalues@.contains(g));
                            let j = choose|j: int| 0 <= j < c.upvalues@.len() && c.upvalues@[j] == g;
                            assert(at(self.heap(), c.upvalues@[j], Kind::Upvalue));
                            let tail = out@.subrange(mid as int, out@.len() as int);
                            assert(tail.contains(g.index));
                            let w = choose|w: int| 0 <= w < tail.len() && tail[w] == g.index;
                            assert(out@.subrange(start as int, out@.len() as int)[w + 1] == g.index);
                        }
                    }
                }
            },
            Object::BoundMethod(b) => {
                out.push(b.receiver.index);
                out.push(b.method.index);
                proof {
                    let o = self.heap()[i as int];
                    assert forall|j: int| start <= j < out@.len() implies refers(o, Gc { index: #[trigger] out@[j] }) by {
                        if j == start {
                            assert(Gc { index: out@[j] } == b.receiver);
                        } else {
                            assert(Gc { index: out@[j] } == b.method);
                        }
                    }
                    assert forall|g: Gc| #[trigger] refers(o, g) implies g.index < bound
                        && out@.subrange(start as int, out@.len() as int).contains(g.index) by {
                        if g == b.receiver {
                            assert(out@.subrange(start as int, out@.len() as int)[0] == g.index);
                        } else {
                            assert(out@.subrange(start as int, out@.len() as int)[1] == g.index);
                        }
                    }
                }
            },
            Object::Class(c) => {
                let methods = c.methods.values();
                push_gc_refs(out, &methods, bound);
                proof {
                    let o = self.heap()[i as int];
                    assert forall|j: int| start <= j < out@.len() implies refers(o, Gc { index: #[trigger] out@[j] }) by {
                        let g = Gc { index: out@[j] };
                        assert(methods@.contains(g));
                        let m = choose|m: int| 0 <= m < methods@.len() && methods@[m] == g;
                        assert(crate::table::is_value_of(c.methods.spec_map(), methods@[m]));
                    }
                    assert forall|g: Gc| #[trigger] refers(o, g) implies g.index < bound
                        && out@.subrange(start as int, out@.len() as int).contains(g.index) by {
                        let k = choose|k: u32| #[trigger] c.methods.spec_map().contains_key(k) && c.methods.spec_map()[k] == g;
                        assert(at(self.heap(), c.methods.spec_map()[k], Kind::Closure));
                        assert(methods@.contains(g));
                    }
                }
            },
            Object::Instance(o) => {
                out.push(o.class.index);
                let mid = out.len();
                let fields = o.fields.values();
                push_value_refs(out, &fields, bound);
                proof {
                    let obj = self.heap()[i as int];
                    assert forall|j: int| start <= j < out@.len() implies refers(obj, Gc { index: #[trigger] out@[j] }) by {
                        let g = Gc { index: out@[j] };
                        if j == start {
                            assert(g == o.class);
                        } else {
                            assert(refers_among(fields@, out@[j]));
                            let m = choose|m: int| 0 <= m < fields@.len() && value_ref(#[trigger] fields@[m]) == Some(g);
                            assert(crate::table::is_value_of(o.fields.spec_map(), fields@[m]));
                        }
                    }
                    assert forall|g: Gc| #[trigger] refers(obj, g) implies g.index < bound
                        && out@.subrange(start as int, out@.len() as int).contains(g.index) by {
                        if g == o.class {
                            assert(out@.subrange(start as int, out@.len() as int)[0] == g.index);
                        } else {
                            let k = choose|k: u32| #[trigger] o.fields.spec_map().contains_key(k)
                                && value_ref(o.fields.spec_map()[k]) == Some(g);
                            let v = o.fields.spec_map()[k];
                            assert(valid_value(self.heap(), v));
                            assert(fields@.contains(v));
                            let tail = out@.subrange(mid as int, out@.len() as int);
                            assert(tail.contains(g.index));
                            let w = choose|w: int| 0 <= w < tail.len() && tail[w] == g.index;
                            assert(out@.subrange(start as int, out@.len() as int)[w + 1] == g.index);
                        }
                    }
                }
            },
            Object::Import(m) => {
                let globals = m.globals.values();
                push_value_refs(out, &globals, bound);
                proof {
                    let o = self.heap()[i as int];
                    assert forall|j: int| start <= j < out@.len() implies refers(o, Gc { index: #[trigger] out@[j] }) by {
                        let g = Gc { index: out@[j] };
                        assert(refers_among(globals@, out@[j]));
                        let w = choose|w: int| 0 <= w < globals@.len() && value_ref(#[trigger] globals@[w]) == Some(g);
                        assert(crate::table::is_value_of(m.globals.spec_map(), globals@[w]));
                    }
                    assert forall|g: Gc| #[trigger] refers(o, g) implies g.index < bound
                        && out@.subrange(start as int, out@.len() as int).contains(g.index) by {
                        let k = choose|k: u32| #[trigger] m.globals.spec_map().contains_key(k)
                            && value_ref(m.globals.spec_map()[k]) == Some(g);
                        let v = m.globals.spec_map()[k];
                        assert(valid_value(self.heap(), v));
                        assert(globals@.contains(v));
                    }
                }
            },
            Object::List(l) => {
                push_value_refs(out, &l.items, bound);
                proof {
                    let o = self.heap()[i as int];
                    assert forall|j: int| start <= j < out@.len() implies refers(o, Gc { index: #[trigger] out@[j] }) by {
                        assert(refers_among(l.items@, out@[j]));
                    }
                    assert forall|g: Gc| #[trigger] refers(o, g) implies g.index < bound
                        && out@.subrange(start as int, out@.len() as int).contains(g.index) by {
                        let j = choose|j: int| 0 <= j < l.items@.len() && value_ref(#[trigger] l.items@[j]) == Some(g);
                        assert(valid_value(self.heap(), l.items@[j]));
                        assert(l.items@.contains(l.items@[j]));
                    }
                }
            },
            Object::Upvalue(Upvalue::Closed(v)) => {
                match value_ref_of(*v) {
                    Some(g) => {
                        if g.index < bound {
                            out.push(g.index);
                            proof {
                                assert(out@.subrange(start as int, out@.len() as int)[0] == g.index);
                                assert(Gc { index: out@[start as int] } == g);
                            }
                        }
                    },
                    None => {},
                }
            },
            _ => {},
        }
    }
}

/// Pushing keeps what a sequence contains.
proof fn lemma_push_contains(s: Seq<usize>, x: usize, y: usize)
    requires
        s.contains(y),
    ensures
        s.push(x).contains(y),
{
    let w = choose|w: int| 0 <= w < s.len() && s[w] == y;
    assert(s.push(x)[w] == y);
}

impl<N: Copy> Fiber<N> {
    /// Object `x` is held directly by the interpreter: by a value on the
    /// stack, a call frame, an open upvalue, a loaded import or a host
    /// function.
    pub open spec fn is_root(&self, x: usize) -> bool {
        ||| exists|j: int| 0 <= j < self.items().len() && value_ref(#[trigger] self.items()[j]) == Some(Gc { index: x })
        ||| exists|j: int| 0 <= j < self.frames@.len() && (#[trigger] self.frames@[j]).closure.index == x
        ||| exists|j: int| 0 <= j < self.upvalues@.len() && (#[trigger] self.upvalues@[j]).index == x
        ||| exists|j: int| 0 <= j < self.imports@.len() && (#[trigger] self.imports@[j]).index == x
        ||| exists|j: int| 0 <= j < self.natives@.len() && (#[trigger] self.natives@[j]).1.index == x
    }

    /// The indices of the objects the interpreter holds directly.
    fn roots(&self) -> (res: Vec<usize>)
        requires
            self.wf(),
        ensures
            forall|j: int| 0 <= j < res@.len() ==> #[trigger] res@[j] < self.heap().len(),
            forall|x: usize| #[trigger] self.is_root(x) ==> res@.contains(x),
            forall|j: int| 0 <= j < res@.len() ==> self.is_root(#[trigger] res@[j]),
    {
        let len = self.objects.len();
        let mut out: Vec<usize> = Vec::new();
        proof {
            self.stack.lemma_items_in_slots();
        }
        let mut j: usize = 0;
        while j < self.stack.len()
            invariant
                self.wf(),
                len == self.heap().len(),
                j <= self.items().len(),
                forall|k: int| 0 <= k < out@.len() ==> #[trigger] out@[k] < len,
                forall|k: int| 0 <= k < out@.len() ==> self.is_root(#[trigger] out@[k]),
                forall|m: int| 0 <= m < j && value_ref(#[trigger] self.items()[m]) is Some
                    ==> out@.contains(value_ref(self.items()[m])->Some_0.index),
            decreases self.items().len() - j,
        {
            proof {
                self.stack.lemma_items_in_slots();
            }
            let v = *self.stack.get(j);
            proof {
                assert(v == self.items()[j as int]);
            }
            match value_ref_of(v) {
                Some(g) => {
                    let ghost before = out@;
                    out.push(g.index);
                    proof {
                        assert forall|k: int| 0 <= k < out@.len() implies self.is_root(#[trigger] out@[k]) by {
                            if k < before.len() {
                                assert(out@[k] == before[k]);
                            } else {
                                assert(value_ref(self.items()[j as int]) == Some(Gc { index: out@[k] }));
                            }
                        }
                        assert forall|m: int| 0 <= m < j + 1 && value_ref(#[trigger] self.items()[m]) is Some
                            implies out@.contains(value_ref(self.items()[m])->Some_0.index) by {
                            if m < j {
                                lemma_push_contains(before, g.index, value_ref(self.items()[m])->Some_0.index);
                            } else {
                                assert(out@[before.len() as int] == g.index);
                            }
                        }
                    }
                },
                None => {},
            }
            j = j + 1;
        }
        let ghost after_items = out@;
        let mut j: usize = 0;
        while j < self.frames.len()
            invariant
                self.wf(),
                len == self.heap().len(),
                j <= self.frames@.len(),
                forall|k: int| 0 <= k < out@.len() ==> #[trigger] out@[k] < len,
                forall|k: int| 0 <= k < out@.len() ==> self.is_root(#[trigger] out@[k]),
                forall|k: int| 0 <= k < after_items.len() ==> #[trigger] out@[k] == after_items[k],
                after_items.len() <= out@.len(),
                forall|m: int| 0 <= m < j ==> out@.contains((#[trigger] self.frames@[m]).closure.index),
            decreases self.frames@.len() - j,
        {
            let g = self.frames[j].closure;
            proof {
                assert(at(self.heap(), self.frames@[j as int].closure, Kind::Closure));
            }
            let ghost before = out@;
            out.push(g.index);
            proof {
                assert forall|k: int| 0 <= k < out@.len() implies self.is_root(#[trigger] out@[k]) by {
                    if k < before.len() {
                        assert(out@[k] == before[k]);
                    } else {
                        assert(self.frames@[j as int].closure.index == out@[k]);
                    }
                }
                assert forall|m: int| 0 <= m < j + 1 implies out@.contains((#[trigger] self.frames@[m]).closure.index) by {
                    if m < j {
                        lemma_push_contains(before, g.index, self.frames@[m].closure.index);
                    } else {
                        assert(out@[before.len() as int] == g.index);
                    }
                }
            }
            j = j + 1;
        }
        let ghost after_frames = out@;
        let mut j: usize = 0;
        while j < self.upvalues.len()
            invariant
                self.wf(),
                len == self.heap().len(),
                j <= self.upvalues@.len(),
                forall|k: int| 0 <= k < out@.len() ==> #[trigger] out@[k] < len,
                forall|k: int| 0 <= k < out@.len() ==> self.is_root(#[trigger] out@[k]),
                forall|k: int| 0 <= k < after_frames.len() ==> #[trigger] out@[k] == after_frames[k],
                after_frames.len() <= out@.len(),
                forall|m: int| 0 <= m < j ==> out@.contains((#[trigger] self.upvalues@[m]).index),
            decreases self.upvalues@.len() - j,
        {
            let g = self.upvalues[j];
            proof {
                assert(at(self.heap(), self.upvalues@[j as int], Kind::Upvalue));
            }
            let ghost before = out@;
            out.push(g.index);
            proof {
                assert forall|k: int| 0 <= k < out@.len() implies self.is_root(#[trigger] out@[k]) by {
                    if k < before.len() {
                        assert(out@[k] == before[k]);
                    } else {
                        assert(self.upvalues@[j as int].index == out@[k]);
                    }
                }
                assert forall|m: int| 0 <= m < j + 1 implies out@.contains((#[trigger] self.upvalues@[m]).index) by {
                    if m < j {
                        lemma_push_contains(before, g.index, self.upvalues@[m].index);
                    } else {
                        assert(out@[before.len() as int] == g.index);
                    }
                }
            }
            j = j + 1;
        }
        let ghost after_upvalues = out@;
        let mut j: usize = 0;
        while j < self.imports.len()
            invariant
                self.wf(),
                len == self.heap().len(),
                j <= self.imports@.len(),
                forall|k: int| 0 <= k < out@.len() ==> #[trigger] out@[k] < len,
                forall|k: int| 0 <= k < out@.len() ==> self.is_root(#[trigger] out@[k]),
                forall|k: int| 0 <= k < after_upvalues.len() ==> #[trigger] out@[k] == after_upvalues[k],
                after_upvalues.len() <= out@.len(),
                forall|m: int| 0 <= m < j ==> out@.contains((#[trigger] self.imports@[m]).index),
            decreases self.imports@.len() - j,
        {
            let g = self.imports[j];
            proof {
                assert(at(self.heap(), self.imports@[j as int], Kind::Import));
            }
            let ghost before = out@;
            out.push(g.index);
            proof {
                assert forall|k: int| 0 <= k < out@.len() implies self.is_root(#[trigger] out@[k]) by {
                    if k < before.len() {
                        assert(out@[k] == before[k]);
                    } else {
                        assert(self.imports@[j as int].index == out@[k]);
                    }
                }
                assert forall|m: int| 0 <= m < j + 1 implies out@.contains((#[trigger] self.imports@[m]).index) by {
                    if m < j {
                        lemma_push_contains(before, g.index, self.imports@[m].index);
                    } else {
                        assert(out@[before.len() as int] == g.index);
                    }
                }
            }
            j = j + 1;
        }
        let ghost after_imports = out@;
        let mut j: usize = 0;
        while j < self.natives.len()
            invariant
                self.wf(),
                len == self.heap().len(),
                j <= self.natives@.len(),
                forall|k: int| 0 <= k < out@.len() ==> #[trigger] out@[k] < len,
                forall|k: int| 0 <= k < out@.len() ==> self.is_root(#[trigger] out@[k]),
                forall|k: int| 0 <= k < after_imports.len() ==> #[trigger] out@[k] == after_imports[k],
                after_imports.len() <= out@.len(),
                forall|m: int| 0 <= m < j ==> out@.contains((#[trigger] self.natives@[m]).1.index),
            decreases self.natives@.len() - j,
        {
            let g = self.natives[j].1;
            proof {
                assert(at(self.heap(), self.natives@[j as int].1, Kind::NativeFunction));
            }
            let ghost before = out@;
            out.push(g.index);
            proof {
                assert forall|k: int| 0 <= k < out@.len() implies self.is_root(#[trigger] out@[k]) by {
                    if k < before.len() {
                        assert(out@[k] == before[k]);
                    } else {
                        assert(self.natives@[j as int].1.index == out@[k]);
                    }
                }
                assert forall|m: int| 0 <= m < j + 1 implies out@.contains((#[trigger] self.natives@[m]).1.index) by {
                    if m < j {
                        lemma_push_contains(before, g.index, self.natives@[m].1.index);
                    } else {
                        assert(out@[before.len() as int] == g.index);
                    }
                }
            }
            j = j + 1;
        }
        proof {
            assert forall|x: usize| #[trigger] self.is_root(x) implies out@.contains(x) by {
                if exists|j: int| 0 <= j < self.items().len() && value_ref(#[trigger] self.items()[j]) == Some(Gc { index: x }) {
                    let j = choose|j: int| 0 <= j < self.items().len() && value_ref(#[trigger] self.items()[j]) == Some(Gc { index: x });
                    assert(after_items.contains(x));
                    lemma_prefix_contains(after_items, after_frames, x);
                    lemma_prefix_contains(after_frames, after_upvalues, x);
                    lemma_prefix_contains(after_upvalues, after_imports, x);
                    lemma_prefix_contains(after_imports, out@, x);
                } else if exists|j: int| 0 <= j < self.frames@.len() && (#[trigger] self.frames@[j]).closure.index == x {
                    let j = choose|j: int| 0 <= j < self.frames@.len() && (#[trigger] self.frames@[j]).closure.index == x;
                    assert(after_frames.contains(x));
                    lemma_prefix_contains(after_frames, after_upvalues, x);
                    lemma_prefix_contains(after_upvalues, after_imports, x);
                    lemma_prefix_contains(after_imports, out@, x);
                } else if exists|j: int| 0 <= j < self.upvalues@.len() && (#[trigger] self.upvalues@[j]).index == x {
                    let j = choose|j: int| 0 <= j < self.upvalues@.len() && (#[trigger] self.upvalues@[j]).index == x;
                    assert(after_upvalues.contains(x));
                    lemma_prefix_contains(after_upvalues, after_imports, x);
                    lemma_prefix_contains(after_imports, out@, x);
                } else if exists|j: int| 0 <= j < self.imports@.len() && (#[trigger] self.imports@[j]).index == x {
                    let j = choose|j: int| 0 <= j < self.imports@.len() && (#[trigger] self.imports@[j]).index == x;
                    assert(after_imports.contains(x));
                    lemma_prefix_contains(after_imports, out@, x);
                } else {
                    let j = choose|j: int| 0 <= j < self.natives@.len() && (#[trigger] self.natives@[j]).1.index == x;
                    assert(out@.contains(self.natives@[j].1.index));
                }
            }
        }
        out
    }
}

/// What a part of a sequence contains, the sequence contains.
proof fn lemma_subrange_contains(s: Seq<usize>, a: int, b: int, x: usize)
    requires
        0 <= a <= b <= s.len(),
        s.subrange(a, b).contains(x),
    ensures
        s.contains(x),
{
    let w = choose|w: int| 0 <= w < b - a && s.subrange(a, b)[w] == x;
    assert(s[a + w] == x);
}

impl<N: Copy> Fiber<N> {
    /// `path` leads from an object the interpreter holds directly, through
    /// references, to its last object.
    pub open spec fn reaches(&self, path: Seq<usize>) -> bool {
        &&& path.len() >= 1
        &&& self.is_root(path[0])
        &&& forall|k: int| 1 <= k < path.len() ==> path[k - 1] < self.heap().len()
            && refers(self.heap()[path[k - 1] as int], Gc { index: #[trigger] path[k] })
    }

    /// Object `x` can be reached from what the interpreter holds directly.
    pub open spec fn reachable(&self, x: usize) -> bool {
        exists|path: Seq<usize>| #[trigger] self.reaches(path) && path.last() == x
    }

    /// What the interpreter holds directly is reachable.
    proof fn lemma_root_reachable(&self, x: usize)
        requires
            self.is_root(x),
        ensures
            self.reachable(x),
    {
        let path = seq![x];
        assert(self.reaches(path));
    }

    /// What a reachable object refers to is reachable.
    proof fn lemma_step_reachable(&self, x: usize, y: usize)
        requires
            self.reachable(x),
            x < self.heap().len(),
            refers(self.heap()[x as int], Gc { index: y }),
        ensures
            self.reachable(y),
    {
        let path = choose|path: Seq<usize>| #[trigger] self.reaches(path) && path.last() == x;
        let longer = path.push(y);
        assert forall|k: int| 1 <= k < longer.len() implies longer[k - 1] < self.heap().len()
            && refers(self.heap()[longer[k - 1] as int], Gc { index: #[trigger] longer[k] }) by {
            if k < path.len() {
                assert(longer[k] == path[k]);
                assert(longer[k - 1] == path[k - 1]);
            }
        }
        assert(self.reaches(longer));
    }

    /// Marks closed under holding and referring cover every reachable
    /// object.
    proof fn lemma_reachable_marked(&self, marks: Seq<bool>, path: Seq<usize>)
        requires
            marks.len() == self.heap().len(),
            forall|x: usize| #[trigger] self.is_root(x) ==> x < marks.len() && marks[x as int],
            forall|i: int, g: Gc| 0 <= i < marks.len() && #[trigger] marks[i] && #[trigger] refers(self.heap()[i], g)
                ==> g.index < marks.len() && marks[g.index as int],
            self.reaches(path),
        ensures
            path.last() < marks.len(),
            marks[path.last() as int],
        decreases path.len(),
    {
        if path.len() > 1 {
            let shorter = path.drop_last();
            assert forall|k: int| 1 <= k < shorter.len() implies shorter[k - 1] < self.heap().len()
                && refers(self.heap()[shorter[k - 1] as int], Gc { index: #[trigger] shorter[k] }) by {
                assert(shorter[k] == path[k]);
                assert(shorter[k - 1] == path[k - 1]);
            }
            assert(self.reaches(shorter));
            self.lemma_reachable_marked(marks, shorter);
            let k = path.len() - 1;
            assert(path[k - 1] == shorter.last());
            assert(refers(self.heap()[path[k - 1] as int], Gc { index: path[k] }));
            assert(marks[path[k - 1] as int]);
        }
    }

    /// Marks the objects the interpreter can reach: those it holds
    /// directly, and every object a marked one refers to; exactly the
    /// reachable ones.
    pub fn mark(&self) -> (marks: Vec<bool>)
        requires
            self.wf(),
        ensures
            marks@.len() == self.heap().len(),
            forall|x: usize| #[trigger] self.is_root(x) ==> x < marks@.len() && marks@[x as int],
            forall|i: int, g: Gc| 0 <= i < marks@.len() && #[trigger] marks@[i] && #[trigger] refers(self.heap()[i], g)
                ==> g.index < marks@.len() && marks@[g.index as int],
            forall|x: usize| x < marks@.len() ==> (marks@[x as int] <==> #[trigger] self.reachable(x)),
    {
        let len = self.objects.len();
        let mut marks: Vec<bool> = Vec::new();
        let mut k: usize = 0;
        while k < len
            invariant
                k <= len,
                marks@.len() == k,
                forall|j: int| 0 <= j < k ==> !(#[trigger] marks@[j]),
            decreases len - k,
        {
            marks.push(false);
            k = k + 1;
        }
        let mut worklist = self.roots();
        proof {
            assert forall|j: int| 0 <= j < worklist@.len() implies self.reachable(#[trigger] worklist@[j]) by {
                self.lemma_root_reachable(worklist@[j]);
            }
        }
        while worklist.len() > 0
            invariant
                self.wf(),
                len == self.heap().len(),
                marks@.len() == len,
                forall|j: int| 0 <= j < worklist@.len() ==> self.reachable(#[trigger] worklist@[j]),
                forall|x: usize| x < len && #[trigger] marks@[x as int] ==> self.reachable(x),
                forall|j: int| 0 <= j < worklist@.len() ==> #[trigger] worklist@[j] < len,
                forall|x: usize| #[trigger] self.is_root(x) ==> x < len && (marks@[x as int] || worklist@.contains(x)),
                forall|i: int, g: Gc| 0 <= i < len && #[trigger] marks@[i] && #[trigger] refers(self.heap()[i], g)
                    ==> g.index < len && (marks@[g.index as int] || worklist@.contains(g.index)),
            decreases count_false(marks@), worklist@.len(),
        {
            let ghost old_list = worklist@;
            let ghost old_marks = marks@;
            let w = match worklist.pop() {
                Some(w) => w,
                None => {
                    proof {
                        assert(false);
                    }
                    0
                },
            };
            proof {
                assert(old_list.last() == w);
                assert(worklist@ =~= old_list.drop_last());
            }
            proof {
                assert(self.reachable(old_list[old_list.len() - 1]));
            }
            if !marks[w] {
                proof {
                    lemma_count_false_set(marks@, w as int);
                }
                marks.set(w, true);
                let ghost popped = worklist@;
                self.push_references(w, &mut worklist);
                proof {
                    assert forall|j: int| 0 <= j < worklist@.len() implies self.reachable(#[trigger] worklist@[j]) by {
                        if j < popped.len() {
                            assert(worklist@[j] == popped[j]);
                            assert(popped[j] == old_list[j]);
                        } else {
                            self.lemma_step_reachable(w, worklist@[j]);
                        }
                    }
                    assert forall|x: usize| x < len && #[trigger] marks@[x as int] implies self.reachable(x) by {
                        if x != w {
                            assert(old_marks[x as int]);
                        }
                    }
                    assert forall|x: usize| #[trigger] self.is_root(x) implies x < len && (marks@[x as int] || worklist@.contains(x)) by {
                        if !old_marks[x as int] && x != w {
                            lemma_pop_contains(old_list, x);
                            lemma_prefix_contains(popped, worklist@, x);
                        }
                    }
                    assert forall|i: int, g: Gc| 0 <= i < len && #[trigger] marks@[i] && #[trigger] refers(self.heap()[i], g)
                        implies g.index < len && (marks@[g.index as int] || worklist@.contains(g.index)) by {
                        if i == w {
                            lemma_subrange_contains(worklist@, popped.len() as int, worklist@.len() as int, g.index);
                        } else {
                            assert(old_marks[i]);
                            if !old_marks[g.index as int] && g.index != w {
                                lemma_pop_contains(old_list, g.index);
                                lemma_prefix_contains(popped, worklist@, g.index);
                            }
                        }
                    }
                }
            } else {
                proof {
                    assert forall|j: int| 0 <= j < worklist@.len() implies self.reachable(#[trigger] worklist@[j]) by {
                        assert(worklist@[j] == old_list[j]);
                    }
                    assert forall|x: usize| #[trigger] self.is_root(x) implies x < len && (marks@[x as int] || worklist@.contains(x)) by {
                        if !marks@[x as int] && x != w {
                            lemma_pop_contains(old_list, x);
                        }
                    }
                    assert forall|i: int, g: Gc| 0 <= i < len && #[trigger] marks@[i] && #[trigger] refers(self.heap()[i], g)
                        implies g.index < len && (marks@[g.index as int] || worklist@.contains(g.index)) by {
                        if !marks@[g.index as int] && g.index != w {
                            lemma_pop_contains(old_list, g.index);
                        }
                    }
                }
            }
        }
        proof {
            assert forall|x: usize| x < marks@.len() implies (marks@[x as int] <==> #[trigger] self.reachable(x)) by {
                if self.reachable(x) {
                    let path = choose|path: Seq<usize>| #[trigger] self.reaches(path) && path.last() == x;
                    self.lemma_reachable_marked(marks@, path);
                }
            }
        }
        marks
    }
}

/// A value whose object is kept stays valid.
proof fn lemma_value_ok_refs<N: Copy>(a: Seq<Object<N>>, b: Seq<Object<N>>, v: Value<N>)
    requires
        valid_value(a, v),
        a.len() == b.len(),
        value_ref(v) is Some ==> b[value_ref(v)->Some_0.index as int] == a[value_ref(v)->Some_0.index as int],
    ensures
        valid_value(b, v),
{
}

impl<N: Copy> Fiber<N> {
    /// Frees every object the interpreter cannot reach, for its slot to be
    /// used again, and keeps every object it can reach as it was; clears the
    /// stack slots above the top, and starts counting the objects made anew.
    pub fn collect_garbage(&mut self)
        requires
            old(self).wf(),
        ensures
            final(self).wf(),
            final(self).heap().len() == old(self).heap().len(),
            final(self).items() == old(self).items(),
            final(self).frames == old(self).frames,
            final(self).upvalues == old(self).upvalues,
            final(self).imports == old(self).imports,
            final(self).natives == old(self).natives,
            final(self).interner == old(self).interner,
            final(self).init_symbol == old(self).init_symbol,
            final(self).error == old(self).error,
            final(self).allocations == 0,
            forall|i: int| 0 <= i < old(self).heap().len() ==>
                #[trigger] final(self).heap()[i] == old(self).heap()[i] || final(self).heap()[i] is Free,
            forall|x: usize| #[trigger] old(self).is_root(x) ==> final(self).heap()[x as int] == old(self).heap()[x as int],
            forall|i: int, g: Gc| 0 <= i < old(self).heap().len() && #[trigger] final(self).heap()[i] == old(self).heap()[i]
                && #[trigger] refers(old(self).heap()[i], g)
                ==> final(self).heap()[g.index as int] == old(self).heap()[g.index as int],
            forall|x: usize| x < old(self).heap().len() ==>
                if #[trigger] old(self).reachable(x) {
                    final(self).heap()[x as int] == old(self).heap()[x as int]
                } else {
                    final(self).heap()[x as int] is Free
                },
    {
        let marks = self.mark();
        let ghost heap0 = self.heap();
        let ghost slots0 = self.stack.spec_slots();
        let ghost items0 = self.items();
        proof {
            self.stack.lemma_items_in_slots();
        }
        self.stack.clear_above(Value::Nil);
        let ghost stack1 = self.stack;
        let len = self.objects.len();
        let mut i: usize = 0;
        while i < len
            invariant
                self.stack == stack1,
                self.frames == old(self).frames,
                self.upvalues == old(self).upvalues,
                self.imports == old(self).imports,
                self.natives == old(self).natives,
                self.interner == old(self).interner,
                self.init_symbol == old(self).init_symbol,
                self.error == old(self).error,
                len == heap0.len(),
                self.objects@.len() == len,
                marks@.len() == len,
                i <= len,
                forall|j: int| 0 <= j < len && (j >= i || marks@[j]) ==> #[trigger] self.objects@[j] == heap0[j],
                forall|j: int| 0 <= j < i && !marks@[j] ==> #[trigger] kind(self.objects@[j]) == Kind::Free,
            decreases len - i,
        {
            if !marks[i] {
                let is_free = match &self.objects[i] {
                    Object::Free => true,
                    _ => false,
                };
                if !is_free {
                    self.objects.set(i, Object::Free);
                    self.free.push(i);
                }
            }
            i = i + 1;
        }
        self.allocations = 0;
        proof {
            let heap1 = self.objects@;
            assert forall|j: int| 0 <= j < len implies #[trigger] heap1[j] == heap0[j] || heap1[j] is Free by {
                if !marks@[j] {
                    assert(kind(heap1[j]) == Kind::Free);
                }
            }
            assert forall|j: int, g: Gc| 0 <= j < len && marks@[j] && refers(heap0[j], g)
                implies heap1[g.index as int] == heap0[g.index as int] by {
                assert(marks@[j] && refers(heap0[j], g));
            }
            assert forall|j: int| 0 <= j < len implies object_ok(heap1, #[trigger] heap1[j]) by {
                if marks@[j] {
                    assert(object_ok(heap0, heap0[j]));
                    assert forall|g: Gc| refers(heap0[j], g) && g.index < heap0.len()
                        implies heap1[g.index as int] == heap0[g.index as int] by {
                        assert(marks@[j] && refers(heap0[j], g));
                    }
                    lemma_object_ok_refs(heap0, heap1, heap0[j]);
                } else {
                    assert(kind(heap1[j]) == Kind::Free);
                }
            }
            assert(heap_ok(heap1));
            assert forall|k: int| 0 <= k < self.stack.spec_slots().len()
                implies valid_value(heap1, #[trigger] self.stack.spec_slots()[k]) by {
                if k < items0.len() {
                    let v = slots0[k];
                    assert(self.stack.spec_slots()[k] == v);
                    assert(items0[k] == v);
                    assert(old(self).items()[k] == v);
                    assert(valid_value(heap0, v));
                    if let Some(g) = value_ref(v) {
                        assert(old(self).is_root(g.index));
                    }
                    lemma_value_ok_refs(heap0, heap1, v);
                } else {
                    assert(self.stack.spec_slots()[k] == Value::<N>::Nil);
                }
            }
            assert forall|k: int| 0 <= k < self.frames@.len()
                implies at(heap1, (#[trigger] self.frames@[k]).closure, Kind::Closure) by {
                assert(old(self).frames@[k] == self.frames@[k]);
                assert(old(self).is_root(self.frames@[k].closure.index));
            }
            assert forall|k: int| 0 <= k < self.upvalues@.len()
                implies at(heap1, #[trigger] self.upvalues@[k], Kind::Upvalue) by {
                assert(old(self).is_root(self.upvalues@[k].index));
            }
            assert forall|k: int| 0 <= k < self.imports@.len()
                implies at(heap1, #[trigger] self.imports@[k], Kind::Import) by {
                assert(old(self).is_root(self.imports@[k].index));
            }
            assert forall|k: int| 0 <= k < self.natives@.len()
                implies at(heap1, (#[trigger] self.natives@[k]).1, Kind::NativeFunction) by {
                assert(old(self).is_root(self.natives@[k].1.index));
            }
            assert forall|x: usize| #[trigger] old(self).is_root(x) implies heap1[x as int] == heap0[x as int] by {
                assert(marks@[x as int]);
            }
            assert forall|x: usize| x < len implies
                if #[trigger] old(self).reachable(x) {
                    heap1[x as int] == heap0[x as int]
                } else {
                    heap1[x as int] is Free
                } by {
                if !old(self).reachable(x) {
                    assert(!marks@[x as int]);
                    assert(kind(heap1[x as int]) == Kind::Free);
                }
            }
            assert forall|j: int, g: Gc| 0 <= j < len && #[trigger] heap1[j] == heap0[j] && #[trigger] refers(heap0[j], g)
                implies heap1[g.index as int] == heap0[g.index as int] by {
                if !marks@[j] {
                    assert(kind(heap1[j]) == Kind::Free);
                    assert(kind(heap0[j]) == Kind::Free);
                } else {
                    assert(marks@[j] && refers(heap0[j], g));
                }
            }
        }
    }
}

} // verus!
