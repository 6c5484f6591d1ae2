use vstd::prelude::*;
use vstd::string::StrSliceExecFns;
use vstd::string::StringExecFns;

verus! {

/// Names a resource out of a resource map, whether that is a sound, a texture
/// or a tile.  Written `namespace:path`.
pub struct ResourceLocation {
    pub namespace: String,
    pub path: String,
}

/// Index of the first `:` in `s` at or after `from`, or `s.len()` if there is
/// none.
pub open spec fn find_colon(s: Seq<char>, from: int) -> int
    decreases s.len() - from,
{
    if from < 0 || from >= s.len() {
        s.len() as int
    } else if s[from] == ':' {
        from
    } else {
        find_colon(s, from + 1)
    }
}

impl ResourceLocation {
    /// Create a new resource location from a namespace and a path.
    pub fn new(namespace: &str, path: &str) -> (r: Self)
        ensures
            r.namespace@ == namespace@,
            r.path@ == path@,
    {
        Self { namespace: namespace.to_owned(), path: path.to_owned() }
    }

    /// Create the resource location that names nothing, `none:none`.
    pub fn empty() -> (r: Self)
        ensures
            r.namespace@ == "none"@,
            r.path@ == "none"@,
    {
        Self { namespace: "none".to_owned(), path: "none".to_owned() }
    }

    /// Set the namespace part of a resource location.
    pub fn set_namespace(&mut self, namespace: String)
        ensures
            final(self).namespace == namespace,
            final(self).path == old(self).path,
    {
        self.namespace = namespace;
    }

    /// Set the path part of a resource location.
    pub fn set_path(&mut self, path: String)
        ensures
            final(self).namespace == old(self).namespace,
            final(self).path == path,
    {
        self.path = path;
    }

    /// Get the resource location as a string, in the form `namespace:path`.
    pub fn to_string(&self) -> (r: String)
        ensures
            r@ == self.namespace@ + seq![':'] + self.path@,
    {
        let mut out = self.namespace.clone();
        out.append(":");
        out.append(self.path.as_str());
        proof {
            reveal_strlit(":");
            assert(":"@ =~= seq![':']);
            assert(out@ =~= self.namespace@ + seq![':'] + self.path@);
        }
        out
    }

    /// Parse a resource location from a string: the namespace is everything up
    /// to the first `:`, the path everything between the first `:` and the
    /// second one (or the end of the string).
    pub fn parse(value: String) -> (r: Self)
        requires
            find_colon(value@, 0) < value@.len(),
        ensures
            r.namespace@ == value@.subrange(0, find_colon(value@, 0)),
            r.path@ == value@.subrange(
                find_colon(value@, 0) + 1,
                find_colon(value@, find_colon(value@, 0) + 1),
            ),
    {
        let n = value.as_str().unicode_len();
        let mut i: usize = 0;
        while value.as_str().get_char(i) != ':'
            invariant
                0 <= i <= value@.len(),
                n == value@.len(),
                find_colon(value@, 0) == find_colon(value@, i as int),
                find_colon(value@, 0) < value@.len(),
            decreases value@.len() - i,
        {
            i = i + 1;
        }
        let namespace = value.as_str().substring_char(0, i).to_owned();
        let mut j: usize = i + 1;
        while j < n && value.as_str().get_char(j) != ':'
            invariant
                i + 1 <= j <= value@.len(),
                n == value@.len(),
                find_colon(value@, i as int + 1) == find_colon(value@, j as int),
            decreases value@.len() - j,
        {
            j = j + 1;
        }
        let path = value.as_str().substring_char(i + 1, j).to_owned();
        Self { namespace, path }
    }
}

impl Clone for ResourceLocation {
    /// Cloning keeps both parts.
    fn clone(&self) -> (r: Self)
        ensures
            r == *self,
    {
        Self { namespace: self.namespace.clone(), path: self.path.clone() }
    }
}

} // verus!
