use vstd::prelude::*;

verus! {

/// The outside path type that `SourceId` converts into.
#[verifier::external_type_specification]
#[verifier::external_body]
pub struct ExPathBuf(std::path::PathBuf);

/// The components that `std::path::Path::iter` yields for a path, each as text.
/// Which characters separate components is fixed by the platform the crate is
/// built for (`/`, and also `\` on Windows), so the components are a function
/// of the text within one build.
pub uninterp spec fn path_components(path: Seq<char>) -> Seq<Seq<char>>;

/// Calls `std::path::Path::iter` on `path` and renders each component with
/// `to_string_lossy`. The components are a function of the path text alone;
/// what they are is left to the name `path_components`.
#[verifier::external_body]
fn path_component_strings(path: &str) -> (parts: Vec<String>)
    ensures
        parts@.len() == path_components(path@).len(),
        forall|i: int| 0 <= i < parts@.len() ==> #[trigger] parts@[i]@ == path_components(path@)[i],
{
    std::path::Path::new(path).iter().map(|c| c.to_string_lossy().into_owned()).collect()
}

/// What `std::path::Path::to_str` yields for a path: its text, where the
/// path is valid Unicode.
pub uninterp spec fn path_str(p: std::path::PathBuf) -> Option<Seq<char>>;

/// Calls `std::path::PathBuf::from` on a string. The path holds the string's
/// text, so `Path::to_str` yields that text back; nothing else is stated of
/// the path, which Verus cannot look into.
#[verifier::external_body]
fn path_buf_from(s: String) -> (p: std::path::PathBuf)
    ensures
        path_str(p) == Some(s@),
{
    std::path::PathBuf::from(s)
}

/// Concatenation of a sequence of strings, in order, with no separator.
pub open spec fn concat_all(parts: Seq<Seq<char>>) -> Seq<char>
    decreases parts.len(),
{
    if parts.len() == 0 {
        Seq::empty()
    } else {
        concat_all(parts.drop_last()) + parts.last()
    }
}

/// The identifier of a source of code: a file, the repl, or nothing.
#[derive(Clone, Debug, PartialEq, Eq, Hash, PartialOrd, Ord)]
pub struct SourceId(String);

impl View for SourceId {
    type V = Seq<char>;

    closed spec fn view(&self) -> Seq<char> {
        self.0@
    }
}

impl Default for SourceId {
    /// The empty identifier.
    fn default() -> (id: SourceId)
        ensures
            id@ == Seq::<char>::empty(),
    {
        SourceId(String::new())
    }
}

impl SourceId {
    /// The identifier of code that comes from nowhere in particular.
    pub fn empty() -> (id: SourceId)
        ensures
            id@ == Seq::<char>::empty(),
    {
        SourceId(String::new())
    }

    /// The identifier of code typed at the repl.
    pub fn repl() -> (id: SourceId)
        ensures
            id@ == "repl"@,
    {
        SourceId(String::from_str("repl"))
    }

    /// An identifier with the given text.
    pub fn from_string(s: &str) -> (id: SourceId)
        ensures
            id@ == s@,
    {
        SourceId(String::from_str(s))
    }

    /// The identifier of a file: the components of the path, joined with
    /// nothing between them.
    pub fn from_path(path: &str) -> (id: SourceId)
        ensures
            id@ == concat_all(path_components(path@)),
    {
        let parts = path_component_strings(path);
        let mut out = String::new();
        let mut i: usize = 0;
        while i < parts.len()
            invariant
                i <= parts@.len(),
                parts@.len() == path_components(path@).len(),
                forall|j: int| 0 <= j < parts@.len() ==> #[trigger] parts@[j]@ == path_components(path@)[j],
                out@ == concat_all(path_components(path@).take(i as int)),
            decreases parts.len() - i,
        {
            out.append(parts[i].as_str());
            proof {
                let ps = path_components(path@);
                assert(ps.take(i + 1).drop_last() =~= ps.take(i as int));
            }
            i = i + 1;
        }
        proof {
            let ps = path_components(path@);
            assert(ps.take(parts@.len() as int) =~= ps);
        }
        SourceId(out)
    }

    /// The text of the identifier.
    pub fn as_str(&self) -> (s: &str)
        ensures
            s@ == self@,
    {
        self.0.as_str()
    }

    /// A deep copy of the identifier.
    pub fn copy(&self) -> (id: SourceId)
        ensures
            id == *self,
    {
        SourceId(self.0.clone())
    }

    /// The identifier as a path: a path whose text is the identifier's.
    pub fn into_path(self) -> (p: std::path::PathBuf)
        ensures
            path_str(p) == Some(self@),
    {
        path_buf_from(self.0)
    }

    /// The identifier as a path, keeping the identifier: a path whose text is
    /// the identifier's.
    pub fn to_path(&self) -> (p: std::path::PathBuf)
        ensures
            path_str(p) == Some(self@),
    {
        path_buf_from(self.0.clone())
    }
}

} // verus!
