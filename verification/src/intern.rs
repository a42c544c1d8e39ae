//! Interned names: a pool that holds each name once and hands out small
//! handles with cheap equality.

use vstd::prelude::*;
use vstd::string::StringSliceAdditionalSpecFns;

verus! {

/// A handle to a name in a pool: the place of the name in it.
#[derive(Debug, Clone, Copy, PartialEq, Eq, Hash, Structural)]
pub struct IStr {
    pub id: usize,
}

impl IStr {
    /// What tells this name from every other name of the same pool.
    pub fn as_ptr(&self) -> (p: usize)
        ensures
            p == self.id,
    {
        self.id
    }
}

/// The place of `name` in `names`, or the place it would be added at.
pub open spec fn position(names: Seq<Seq<u8>>, name: Seq<u8>) -> int {
    if names.contains(name) {
        names.index_of(name)
    } else {
        names.len() as int
    }
}

/// `names` with `name` in it: added at the end unless it is there already.
pub open spec fn interned(names: Seq<Seq<u8>>, name: Seq<u8>) -> Seq<Seq<u8>> {
    if names.contains(name) {
        names
    } else {
        names.push(name)
    }
}

/// A pool of names. It only grows, and no name is in it twice.
pub struct Interner {
    names: Vec<Vec<u8>>,
}

impl View for Interner {
    type V = Seq<Seq<u8>>;

    closed spec fn view(&self) -> Seq<Seq<u8>> {
        Seq::new(self.names@.len(), |i: int| self.names@[i]@)
    }
}

/// Whether two byte strings are equal.
pub fn bytes_eq(a: &[u8], b: &[u8]) -> (eq: bool)
    ensures
        eq == (a@ == b@),
{
    if a.len() != b.len() {
        return false;
    }
    let mut i: usize = 0;
    while i < a.len()
        invariant
            i <= a@.len(),
            a@.len() == b@.len(),
            forall|j: int| 0 <= j < i ==> a@[j] == b@[j],
        decreases a@.len() - i,
    {
        if a[i] != b[i] {
            return false;
        }
        i += 1;
    }
    proof {
        assert(a@ =~= b@);
    }
    true
}

/// A copy of a byte string.
pub fn bytes_copy(a: &[u8]) -> (v: Vec<u8>)
    ensures
        v@ == a@,
{
    let mut v: Vec<u8> = Vec::new();
    let mut i: usize = 0;
    while i < a.len()
        invariant
            i <= a@.len(),
            v@ == a@.subrange(0, i as int),
        decreases a@.len() - i,
    {
        v.push(a[i]);
        proof {
            assert(v@ =~= a@.subrange(0, i + 1));
        }
        i += 1;
    }
    proof {
        assert(v@ =~= a@);
    }
    v
}

impl Interner {
    /// No name is in the pool twice.
    pub open spec fn wf(&self) -> bool {
        self@.no_duplicates()
    }

    /// The name that `h` stands for.
    pub open spec fn name_of(&self, h: IStr) -> Seq<u8> {
        self@[h.id as int]
    }

    /// `h` was handed out by this pool.
    pub open spec fn knows(&self, h: IStr) -> bool {
        h.id < self@.len()
    }

    /// An empty pool.
    pub fn new() -> (pool: Interner)
        ensures
            pool@ == Seq::<Seq<u8>>::empty(),
            pool.wf(),
    {
        let pool = Interner { names: Vec::new() };
        proof {
            assert(pool@ =~= Seq::<Seq<u8>>::empty());
        }
        pool
    }

    /// The number of names in the pool.
    pub fn len(&self) -> (n: usize)
        ensures
            n == self@.len(),
    {
        self.names.len()
    }

    /// The handle of `name`, if the pool holds it.
    pub fn find(&self, name: &[u8]) -> (found: Option<IStr>)
        requires
            self.wf(),
        ensures
            found is Some <==> self@.contains(name@),
            found is Some ==> found->0.id == position(self@, name@) && self.name_of(found->0)
                == name@,
    {
        let mut i: usize = 0;
        while i < self.names.len()
            invariant
                self.wf(),
                i <= self@.len(),
                self@.len() == self.names@.len(),
                forall|j: int| 0 <= j < i ==> self@[j] != name@,
            decreases self@.len() - i,
        {
            proof {
                assert(self@[i as int] == self.names@[i as int]@);
            }
            if bytes_eq(self.names[i].as_slice(), name) {
                proof {
                    assert(self@[i as int] == name@);
                    assert(self@.contains(name@));
                    let k = self@.index_of(name@);
                    assert(self@[k] == name@);
                    assert(k == i);
                }
                return Some(IStr { id: i });
            }
            i += 1;
        }
        None
    }

    /// The handle of the name `name`, which is added to the pool if it is
    /// not there yet.
    pub fn intern_bytes(&mut self, name: &[u8]) -> (h: IStr)
        requires
            old(self).wf(),
        ensures
            final(self).wf(),
            final(self)@ == interned(old(self)@, name@),
            h.id == position(old(self)@, name@),
            final(self).knows(h),
            final(self).name_of(h) == name@,
    {
        match self.find(name) {
            Some(h) => h,
            None => {
                let id = self.names.len();
                self.names.push(bytes_copy(name));
                proof {
                    assert(self@ =~= old(self)@.push(name@));
                }
                IStr { id }
            },
        }
    }

    /// The name that `h` stands for.
    pub fn name(&self, h: IStr) -> (name: &[u8])
        requires
            self.knows(h),
        ensures
            name@ == self.name_of(h),
    {
        proof {
            assert(self@[h.id as int] == self.names@[h.id as int]@);
        }
        self.names[h.id].as_slice()
    }
}

/// What can be interned in a pool.
pub trait Intern {
    /// The name as bytes.
    spec fn text(&self) -> Seq<u8>;

    /// The handle of this name in `pool`.
    fn intern(&self, pool: &mut Interner) -> (h: IStr)
        requires
            old(pool).wf(),
        ensures
            final(pool).wf(),
            final(pool)@ == interned(old(pool)@, self.text()),
            h.id == position(old(pool)@, self.text()),
            final(pool).name_of(h) == self.text(),
    ;
}

impl Intern for String {
    open spec fn text(&self) -> Seq<u8> {
        vstd::utf8::encode_utf8(self@)
    }

    fn intern(&self, pool: &mut Interner) -> (h: IStr) {
        pool.intern_bytes(self.as_str().as_bytes())
    }
}

impl Intern for &str {
    open spec fn text(&self) -> Seq<u8> {
        self.spec_bytes()
    }

    fn intern(&self, pool: &mut Interner) -> (h: IStr) {
        pool.intern_bytes(self.as_bytes())
    }
}

/// What lives as long as the program and can be interned as it is.
pub trait InternStatic {
    /// The name as bytes.
    spec fn static_text(&self) -> Seq<u8>;

    /// The handle of this name in `pool`.
    fn intern_static(&self, pool: &mut Interner) -> (h: IStr)
        requires
            old(pool).wf(),
        ensures
            final(pool).wf(),
            final(pool)@ == interned(old(pool)@, self.static_text()),
            h.id == position(old(pool)@, self.static_text()),
            final(pool).name_of(h) == self.static_text(),
    ;
}

impl InternStatic for &'static str {
    open spec fn static_text(&self) -> Seq<u8> {
        self.spec_bytes()
    }

    fn intern_static(&self, pool: &mut Interner) -> (h: IStr) {
        pool.intern_bytes(self.as_bytes())
    }
}

/// Interning the same name twice gives the same handle, and the second time
/// leaves the pool as it is.
pub proof fn lemma_intern_twice(names: Seq<Seq<u8>>, name: Seq<u8>)
    requires
        names.no_duplicates(),
    ensures
        interned(names, name).no_duplicates(),
        interned(interned(names, name), name) == interned(names, name),
        position(interned(names, name), name) == position(names, name),
{
    let after = interned(names, name);
    if names.contains(name) {
    } else {
        assert(after[names.len() as int] == name);
        assert(after.contains(name));
        let k = after.index_of(name);
        assert(after[k] == name);
        if k < names.len() {
            assert(names[k] == name);
        }
    }
}

/// Two names have the same handle exactly when they are the same name.
pub proof fn lemma_handle_is_name(names: Seq<Seq<u8>>, a: Seq<u8>, b: Seq<u8>)
    requires
        names.no_duplicates(),
        names.contains(a),
        names.contains(b),
    ensures
        position(names, a) == position(names, b) <==> a == b,
{
    let i = names.index_of(a);
    let j = names.index_of(b);
    assert(names[i] == a);
    assert(names[j] == b);
}

/// A pool only grows: a handle stands for the same name after any interning.
pub proof fn lemma_intern_keeps(names: Seq<Seq<u8>>, name: Seq<u8>, i: int)
    requires
        0 <= i < names.len(),
    ensures
        interned(names, name).len() >= names.len(),
        interned(names, name)[i] == names[i],
{
}

} // verus!
