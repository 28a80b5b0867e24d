use vstd::prelude::*;

verus! {

/// A name that can stand as one component of a relative path: not empty,
/// not `.` or `..`, and without a separator.
pub open spec fn valid_component(c: Seq<char>) -> bool {
    &&& c.len() > 0
    &&& c != seq!['.']
    &&& c != seq!['.', '.']
    &&& !c.contains('/')
}

/// A relative path that stays below its root: at least one component, each
/// of them valid.
pub open spec fn valid_path(p: Seq<Seq<char>>) -> bool {
    &&& p.len() > 0
    &&& forall|i: int| 0 <= i < p.len() ==> valid_component(#[trigger] p[i])
}

/// The characters of `s`, one by one.
pub fn chars_of(s: &str) -> (r: Vec<char>)
    ensures
        r@ == s@,
{
    let n = s.unicode_len();
    let mut r: Vec<char> = Vec::new();
    let mut i: usize = 0;
    while i < n
        invariant
            n == s@.len(),
            i <= n,
            r@ == s@.subrange(0, i as int),
        decreases n - i,
    {
        let c = s.get_char(i);
        r.push(c);
        i = i + 1;
    }
    r
}

/// Whether `s` is a valid path component.
pub fn is_valid_component(s: &String) -> (r: bool)
    ensures
        r == valid_component(s@),
{
    let cs = chars_of(s.as_str());
    let n = cs.len();
    if n == 0 {
        return false;
    }
    if n == 1 && cs[0] == '.' {
        assert(s@ == seq!['.']);
        return false;
    }
    if n == 2 && cs[0] == '.' && cs[1] == '.' {
        assert(s@ == seq!['.', '.']);
        return false;
    }
    let mut i: usize = 0;
    while i < n
        invariant
            n == cs@.len(),
            cs@ == s@,
            i <= n,
            forall|j: int| 0 <= j < i ==> cs@[j] != '/',
        decreases n - i,
    {
        if cs[i] == '/' {
            assert(s@[i as int] == '/');
            return false;
        }
        i = i + 1;
    }
    assert(!s@.contains('/'));
    assert(s@ != seq!['.']) by {
        if s@ == seq!['.'] {
            assert(cs@[0] == '.');
        }
    }
    assert(s@ != seq!['.', '.']) by {
        if s@ == seq!['.', '.'] {
            assert(cs@[0] == '.' && cs@[1] == '.');
        }
    }
    true
}

/// A path relative to the root of a tree, kept as its components.
#[derive(Debug)]
pub struct RelPath {
    parts: Vec<String>,
}

impl View for RelPath {
    type V = Seq<Seq<char>>;

    closed spec fn view(&self) -> Seq<Seq<char>> {
        Seq::new(self.parts@.len(), |i: int| self.parts@[i]@)
    }
}

impl RelPath {
    #[verifier::type_invariant]
    spec fn inv(&self) -> bool {
        valid_path(self@)
    }

    /// Builds a path from its components; `None` where there is none or one
    /// of them is not a valid component.
    pub fn new(parts: Vec<String>) -> (r: Option<RelPath>)
        ensures
            r is Some <==> valid_path(Seq::new(parts@.len(), |i: int| parts@[i]@)),
            r matches Some(p) ==> p@ == Seq::new(parts@.len(), |i: int| parts@[i]@),
    {
        let ghost v = Seq::new(parts@.len(), |i: int| parts@[i]@);
        if parts.len() == 0 {
            return None;
        }
        let mut i: usize = 0;
        while i < parts.len()
            invariant
                i <= parts@.len(),
                v == Seq::new(parts@.len(), |i: int| parts@[i]@),
                forall|j: int| 0 <= j < i ==> valid_component(#[trigger] v[j]),
            decreases parts@.len() - i,
        {
            if !is_valid_component(&parts[i]) {
                assert(!valid_component(v[i as int]));
                return None;
            }
            i = i + 1;
        }
        Some(RelPath { parts })
    }

    /// The components, first to last.
    pub fn parts(&self) -> (r: &Vec<String>)
        ensures
            Seq::new(r@.len(), |i: int| r@[i]@) == self@,
            valid_path(self@),
    {
        proof {
            use_type_invariant(self);
        }
        &self.parts
    }

    /// The number of components.
    pub fn len(&self) -> (r: usize)
        ensures
            r == self@.len(),
            valid_path(self@),
    {
        proof {
            use_type_invariant(self);
        }
        self.parts.len()
    }

    /// A copy of this path.
    pub fn duplicate(&self) -> (r: RelPath)
        ensures
            r@ == self@,
    {
        proof {
            use_type_invariant(self);
        }
        let mut parts: Vec<String> = Vec::new();
        let mut i: usize = 0;
        while i < self.parts.len()
            invariant
                i <= self.parts@.len(),
                parts@.len() == i,
                forall|j: int| 0 <= j < i ==> (#[trigger] parts@[j])@ == self.parts@[j]@,
            decreases self.parts@.len() - i,
        {
            parts.push(self.parts[i].clone());
            i = i + 1;
        }
        let ghost v = Seq::new(parts@.len(), |i: int| parts@[i]@);
        assert(v =~= self@);
        RelPath { parts }
    }

    /// The first component.
    pub fn first(&self) -> (r: &String)
        ensures
            r@ == self@[0],
            valid_path(self@),
    {
        proof {
            use_type_invariant(self);
        }
        &self.parts[0]
    }

    /// The last component: the file name.
    pub fn file_name(&self) -> (r: &String)
        ensures
            r@ == self@.last(),
            valid_path(self@),
    {
        proof {
            use_type_invariant(self);
        }
        &self.parts[self.parts.len() - 1]
    }

    /// Whether two paths name the same place.
    pub fn same(&self, other: &RelPath) -> (r: bool)
        ensures
            r == (self@ == other@),
    {
        if self.parts.len() != other.parts.len() {
            assert(self@.len() != other@.len());
            return false;
        }
        let mut i: usize = 0;
        while i < self.parts.len()
            invariant
                i <= self.parts@.len(),
                self.parts@.len() == other.parts@.len(),
                forall|j: int| 0 <= j < i ==> self@[j] == other@[j],
            decreases self.parts@.len() - i,
        {
            if self.parts[i] != other.parts[i] {
                assert(self@[i as int] != other@[i as int]);
                return false;
            }
            i = i + 1;
        }
        assert(self@ =~= other@);
        true
    }
}

impl PartialEq for RelPath {
    fn eq(&self, other: &RelPath) -> (r: bool) {
        self.same(other)
    }
}

impl vstd::std_specs::cmp::PartialEqSpecImpl for RelPath {
    open spec fn obeys_eq_spec() -> bool {
        true
    }

    open spec fn eq_spec(&self, other: &RelPath) -> bool {
        self@ == other@
    }
}

impl Clone for RelPath {
    fn clone(&self) -> (r: RelPath)
        ensures
            r@ == self@,
    {
        self.duplicate()
    }
}

} // verus!

verus! {

/// Whether two texts hold the same characters.
pub fn str_eq(a: &str, b: &str) -> (r: bool)
    ensures
        r == (a@ == b@),
{
    let x = chars_of(a);
    let y = chars_of(b);
    if x.len() != y.len() {
        return false;
    }
    let mut i: usize = 0;
    while i < x.len()
        invariant
            x@ == a@,
            y@ == b@,
            x@.len() == y@.len(),
            i <= x@.len(),
            forall|j: int| 0 <= j < i ==> x@[j] == y@[j],
        decreases x@.len() - i,
    {
        if x[i] != y[i] {
            return false;
        }
        i = i + 1;
    }
    assert(a@ =~= b@);
    true
}

/// The views of a list of paths.
pub open spec fn views(s: Seq<RelPath>) -> Seq<Seq<Seq<char>>> {
    Seq::new(s.len(), |i: int| s[i]@)
}

} // verus!
