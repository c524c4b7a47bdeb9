//! Symbol interning and the global binding table.
//!
//! The execution core only needs a symbol to resolve to a stable handle it
//! can read and write through the heap; how the tables are organized is its
//! own business. Here symbols are indices into an append-only string table,
//! deduplicated by content.

use vstd::prelude::*;

use crate::heap::Handle;

verus! {

/// An interned symbol: a stable index into the intern table.
#[derive(Copy, Clone, Debug, PartialEq, Eq, Structural)]
pub struct Interned {
    pub id: u32,
}

/// A deduplicating, append-only string table.
pub struct Interner {
    strings: Vec<String>,
}

impl View for Interner {
    type V = Seq<Seq<char>>;

    closed spec fn view(&self) -> Seq<Seq<char>> {
        self.strings@.map_values(|s: String| s@)
    }
}

impl Interner {
    /// A fresh table; the capacity is only a storage hint.
    pub fn with_capacity(capacity: usize) -> (it: Interner)
        ensures
            it@ == Seq::<Seq<char>>::empty(),
    {
        let it = Interner { strings: Vec::with_capacity(capacity) };
        proof {
            assert(it@ =~= Seq::<Seq<char>>::empty());
        }
        it
    }

    /// Intern a string: the index of its first occurrence in the table,
    /// appending it if it was never seen.
    pub fn intern(&mut self, string: &str) -> (s: Interned)
        requires
            old(self)@.len() < u32::MAX as int,
        ensures
            ({
                let pre = old(self)@;
                if exists|j: int| 0 <= j < pre.len() && pre[j] == string@ {
                    &&& final(self)@ == pre
                    &&& 0 <= s.id < pre.len()
                    &&& pre[s.id as int] == string@
                    &&& forall|j: int| 0 <= j < s.id ==> pre[j] != string@
                } else {
                    &&& final(self)@ == pre.push(string@)
                    &&& s.id as int == pre.len()
                }
            }),
    {
        let owned: String = string.to_owned();
        let n = self.strings.len();
        let mut i: usize = 0;
        while i < n
            invariant
                n == self.strings.len(),
                i <= n,
                owned@ == string@,
                forall|j: int| 0 <= j < i ==> self@[j] != string@,
                n < u32::MAX as usize,
            decreases n - i,
        {
            let same = self.strings[i].eq(&owned);
            proof {
                assert(self@[i as int] == self.strings@[i as int]@);
            }
            if same {
                return Interned { id: i as u32 };
            }
            i = i + 1;
        }
        self.strings.push(owned);
        proof {
            assert(self@ =~= old(self)@.push(string@));
        }
        Interned { id: n as u32 }
    }

    /// How many distinct symbols the table holds.
    pub fn len(&self) -> (n: usize)
        ensures
            n as int == self@.len(),
    {
        self.strings.len()
    }
}

/// The mathematical state of the global binding table: interned symbol
/// names beside the handle each is bound to, index for index.
pub ghost struct GlobalsV {
    pub names: Seq<Seq<char>>,
    pub bindings: Seq<Handle>,
}

/// Global variable bindings: a symbol table and, for every symbol, the
/// heap handle it is bound to.
pub struct Globals {
    syms: Interner,
    handles: Vec<Handle>,
}

impl View for Globals {
    type V = GlobalsV;

    closed spec fn view(&self) -> GlobalsV {
        GlobalsV { names: self.syms@, bindings: self.handles@ }
    }
}

impl Globals {
    /// Whether the two tables run in parallel.
    pub open spec fn wf(&self) -> bool {
        self@.names.len() == self@.bindings.len()
    }

    /// A fresh, empty binding table.
    pub fn new() -> (g: Globals)
        ensures
            g.wf(),
            g@.names == Seq::<Seq<char>>::empty(),
            g@.bindings == Seq::<Handle>::empty(),
    {
        Globals { syms: Interner::with_capacity(8), handles: Vec::new() }
    }

    /// Bind a symbol to a handle, interning the name if it is new;
    /// rebinding an existing symbol replaces its handle. Returns the
    /// symbol.
    pub fn intern_symbol(&mut self, string: &str, handle: Handle) -> (s: Interned)
        requires
            old(self).wf(),
            old(self)@.names.len() < u32::MAX as int,
        ensures
            final(self).wf(),
            ({
                let pre = old(self)@;
                if exists|j: int| 0 <= j < pre.names.len() && pre.names[j] == string@ {
                    &&& final(self)@.names == pre.names
                    &&& 0 <= s.id < pre.names.len()
                    &&& pre.names[s.id as int] == string@
                    &&& forall|j: int| 0 <= j < s.id ==> pre.names[j] != string@
                    &&& final(self)@.bindings == pre.bindings.update(s.id as int, handle)
                } else {
                    &&& final(self)@.names == pre.names.push(string@)
                    &&& s.id as int == pre.names.len()
                    &&& final(self)@.bindings == pre.bindings.push(handle)
                }
            }),
    {
        let s = self.syms.intern(string);
        if (s.id as usize) < self.handles.len() {
            self.handles.set(s.id as usize, handle);
        } else {
            self.handles.push(handle);
        }
        s
    }

    /// The bound handles, index for index with the symbol table.
    pub fn handles(&self) -> (v: &Vec<Handle>)
        ensures
            v@ == self@.bindings,
    {
        &self.handles
    }

    /// The handle a symbol is bound to, if the symbol exists.
    pub fn binding(&self, s: Interned) -> (r: Option<Handle>)
        ensures
            match r {
                Some(h) => s.id < self@.bindings.len() && h == self@.bindings[s.id as int],
                None => s.id >= self@.bindings.len(),
            },
    {
        if (s.id as usize) < self.handles.len() {
            Some(self.handles[s.id as usize])
        } else {
            None
        }
    }
}

} // verus!
