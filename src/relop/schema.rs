use vstd::prelude::*;

verus! {

/// The type of a field: a 32-bit integer, or a character field of fixed width.
#[derive(Clone, Copy, Debug, PartialEq, Eq, Structural)]
pub enum AttributeType {
    Int,
    Varchar(usize),
}

impl AttributeType {
    /// The number of bytes a field of this type takes.
    pub open spec fn size(self) -> int {
        match self {
            AttributeType::Int => 4,
            AttributeType::Varchar(n) => n as int,
        }
    }

    /// The number of bytes a field of this type takes.
    pub fn get_size(&self) -> (r: usize)
        ensures
            r == self.size(),
    {
        match self {
            AttributeType::Int => 4,
            AttributeType::Varchar(length) => *length,
        }
    }
}

/// The total width of fields of types `ts`.
pub open spec fn width(ts: Seq<AttributeType>) -> int
    decreases ts.len(),
{
    if ts.len() == 0 {
        0
    } else {
        width(ts.drop_last()) + ts.last().size()
    }
}

/// `x`, or `usize::MAX` where `x` is larger.
pub open spec fn clamp(x: int) -> int {
    if x <= usize::MAX {
        x
    } else {
        usize::MAX as int
    }
}

/// What a schema says: names, types and byte offsets of the fields, in order.
pub struct SchemaView {
    pub names: Seq<Seq<char>>,
    pub types: Seq<AttributeType>,
    pub offsets: Seq<int>,
}

/// The offsets that lay the fields of types `ts` out one after the other from byte 0.
pub open spec fn packed_offsets(ts: Seq<AttributeType>) -> Seq<int> {
    Seq::new(ts.len(), |i: int| clamp(width(ts.subrange(0, i))))
}

/// An ordered list of named, typed fields with their byte offsets.
#[derive(Debug)]
pub struct Schema {
    names: Vec<String>,
    types: Vec<AttributeType>,
    offsets: Vec<usize>,
}

impl View for Schema {
    type V = SchemaView;

    closed spec fn view(&self) -> SchemaView {
        SchemaView {
            names: self.names@.map_values(|s: String| s@),
            types: self.types@,
            offsets: self.offsets@.map_values(|o: usize| o as int),
        }
    }
}

impl SchemaView {
    /// Names, types and offsets are given for the same fields.
    pub open spec fn wf(self) -> bool {
        &&& self.names.len() == self.types.len()
        &&& self.offsets.len() == self.types.len()
    }

    /// The offsets lay the fields out one after the other.
    pub open spec fn packed(self) -> bool {
        self.wf() && self.offsets == packed_offsets(self.types)
    }
}

impl Schema {
    /// A schema of the given fields at the given offsets.
    pub fn new(names: Vec<String>, types: Vec<AttributeType>, offsets: Vec<usize>) -> (r: Schema)
        ensures
            r@.names == names@.map_values(|s: String| s@),
            r@.types == types@,
            r@.offsets == offsets@.map_values(|o: usize| o as int),
    {
        Schema { names, types, offsets }
    }

    /// A schema of the given fields, laid out one after the other.
    pub fn build(name_type_list: Vec<(String, AttributeType)>) -> (r: Schema)
        ensures
            r@.packed(),
            r@.names == name_type_list@.map_values(|p: (String, AttributeType)| p.0@),
            r@.types == name_type_list@.map_values(|p: (String, AttributeType)| p.1),
    {
        let ghost list = name_type_list@;
        let mut names: Vec<String> = Vec::new();
        let mut types: Vec<AttributeType> = Vec::new();
        let mut offsets: Vec<usize> = Vec::new();
        let mut acc: usize = 0;
        let mut i: usize = 0;
        while i < name_type_list.len()
            invariant
                i <= list.len(),
                name_type_list@ == list,
                names@.map_values(|s: String| s@)
                    =~= list.subrange(0, i as int).map_values(|p: (String, AttributeType)| p.0@),
                types@ =~= list.subrange(0, i as int).map_values(|p: (String, AttributeType)| p.1),
                offsets@.len() == i,
                forall|k: int| 0 <= k < i ==> offsets@[k] as int == clamp(width(types@.subrange(0, k))),
                acc as int == clamp(width(types@)),
            decreases list.len() - i,
        {
            let name = name_type_list[i].0.clone();
            assert(name@ == list[i as int].0@);
            let ty = name_type_list[i].1;
            let ghost old_types = types@;
            let ghost old_names = names@;
            offsets.push(acc);
            names.push(name);
            types.push(ty);
            let size = ty.get_size();
            acc = if acc > usize::MAX - size { usize::MAX } else { acc + size };
            proof {
                assert(types@.drop_last() =~= old_types);
                assert(types@.subrange(0, i as int) =~= old_types);
                assert forall|k: int| 0 <= k <= i implies types@.subrange(0, k) =~= old_types.subrange(0, k) by {}
            }
            i = i + 1;
            assert(list.subrange(0, i as int) =~= list.subrange(0, i - 1).push(list[i - 1]));
            assert(names@ == old_names.push(name));
            assert(names@.map_values(|s: String| s@) =~= old_names.map_values(|s: String| s@).push(name@));
            assert(names@.map_values(|s: String| s@)
                =~= list.subrange(0, i as int).map_values(|p: (String, AttributeType)| p.0@));
        }
        assert(list.subrange(0, i as int) =~= list);
        let r = Schema { names, types, offsets };
        assert(r@.offsets =~= packed_offsets(r@.types));
        r
    }

    /// The byte offset of field `fno`.
    pub fn get_offset(&self, fno: usize) -> (r: Option<&usize>)
        ensures
            fno < self@.offsets.len() ==> (r matches Some(o) && *o as int == self@.offsets[fno as int]),
            fno >= self@.offsets.len() ==> r is None,
    {
        if fno < self.offsets.len() {
            Some(&self.offsets[fno])
        } else {
            None
        }
    }

    /// The type of field `fno`.
    pub fn get_type(&self, fno: usize) -> (r: Option<&AttributeType>)
        ensures
            fno < self@.types.len() ==> (r matches Some(t) && *t == self@.types[fno as int]),
            fno >= self@.types.len() ==> r is None,
    {
        if fno < self.types.len() {
            Some(&self.types[fno])
        } else {
            None
        }
    }

    /// The name of field `fno`.
    pub fn get_name(&self, fno: usize) -> (r: Option<&String>)
        ensures
            fno < self@.names.len() ==> (r matches Some(n) && n@ == self@.names[fno as int]),
            fno >= self@.names.len() ==> r is None,
    {
        if fno < self.names.len() {
            Some(&self.names[fno])
        } else {
            None
        }
    }

    /// The number of fields.
    pub fn len(&self) -> (r: usize)
        ensures
            r == self@.names.len(),
    {
        self.names.len()
    }

    /// Whether names, types and offsets are given for the same fields.
    pub fn is_consistent(&self) -> (r: bool)
        ensures
            r == self@.wf(),
    {
        self.names.len() == self.types.len() && self.offsets.len() == self.types.len()
    }

    /// The schema of fields `fnos` of this one, in that order and laid out anew; `None` where
    /// an index is out of range.
    pub fn projection(&self, fnos: &Vec<usize>) -> (r: Option<Schema>)
        requires
            self@.wf(),
        ensures
            (forall|j: int| 0 <= j < fnos@.len() ==> fnos@[j] < self@.types.len()) ==> (r matches Some(p)
                && p@.packed()
                && p@.names == fnos@.map_values(|f: usize| self@.names[f as int])
                && p@.types == fnos@.map_values(|f: usize| self@.types[f as int])),
            !(forall|j: int| 0 <= j < fnos@.len() ==> fnos@[j] < self@.types.len()) ==> r is None,
    {
        let mut xs: Vec<(String, AttributeType)> = Vec::new();
        let mut j: usize = 0;
        while j < fnos.len()
            invariant
                j <= fnos@.len(),
                self@.wf(),
                forall|k: int| 0 <= k < j ==> fnos@[k] < self@.types.len(),
                xs@.len() == j,
                forall|k: int| 0 <= k < j ==> xs@[k].0@ == self@.names[fnos@[k] as int]
                    && xs@[k].1 == self@.types[fnos@[k] as int],
            decreases fnos@.len() - j,
        {
            let fno = fnos[j];
            if fno >= self.types.len() {
                return None;
            }
            xs.push((self.names[fno].clone(), self.types[fno]));
            j = j + 1;
        }
        let ghost xv = xs@;
        let p = Schema::build(xs);
        assert(p@.names =~= fnos@.map_values(|f: usize| self@.names[f as int]));
        assert(p@.types =~= fnos@.map_values(|f: usize| self@.types[f as int]));
        Some(p)
    }
}

/// The width of a prefix of the fields grows with the prefix.
pub proof fn lemma_width_mono(ts: Seq<AttributeType>, a: int, b: int)
    requires
        0 <= a <= b <= ts.len(),
    ensures
        width(ts.subrange(0, a)) <= width(ts.subrange(0, b)),
        b < ts.len() ==> width(ts.subrange(0, b + 1)) == width(ts.subrange(0, b)) + ts[b].size(),
    decreases b - a,
{
    if b < ts.len() {
        assert(ts.subrange(0, b + 1).drop_last() =~= ts.subrange(0, b));
    }
    if a < b {
        lemma_width_mono(ts, a, b - 1);
        assert(ts.subrange(0, b).drop_last() =~= ts.subrange(0, b - 1));
        lemma_size_nonneg(ts[b - 1]);
    }
}

proof fn lemma_size_nonneg(t: AttributeType)
    ensures
        t.size() >= 0,
{
}

impl Schema {
    /// A copy of this schema.
    pub fn copy(&self) -> (r: Schema)
        ensures
            r@ == self@,
    {
        let mut names: Vec<String> = Vec::new();
        let mut i: usize = 0;
        while i < self.names.len()
            invariant
                i <= self.names@.len(),
                names@.len() == i,
                forall|k: int| 0 <= k < i ==> #[trigger] names@[k] == self.names@[k],
            decreases self.names@.len() - i,
        {
            names.push(self.names[i].clone());
            i = i + 1;
        }
        let mut types: Vec<AttributeType> = Vec::new();
        let mut i: usize = 0;
        while i < self.types.len()
            invariant
                i <= self.types@.len(),
                types@ == self.types@.subrange(0, i as int),
            decreases self.types@.len() - i,
        {
            types.push(self.types[i]);
            i = i + 1;
            assert(types@ =~= self.types@.subrange(0, i as int));
        }
        let mut offsets: Vec<usize> = Vec::new();
        let mut i: usize = 0;
        while i < self.offsets.len()
            invariant
                i <= self.offsets@.len(),
                offsets@ == self.offsets@.subrange(0, i as int),
            decreases self.offsets@.len() - i,
        {
            offsets.push(self.offsets[i]);
            i = i + 1;
            assert(offsets@ =~= self.offsets@.subrange(0, i as int));
        }
        assert(names@ =~= self.names@);
        assert(types@ =~= self.types@);
        assert(offsets@ =~= self.offsets@);
        Schema { names, types, offsets }
    }
}

} // verus!
