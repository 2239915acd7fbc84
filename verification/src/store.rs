//! The argument store: the top-level ordered token list plus the loaded
//! response files, each with its own token list, its scratch path and a
//! `changed` flag.

use vstd::prelude::*;

verus! {

/// One response file held for the duration of a rewrite session.
///
/// `original_path` is the path the `@` token on the command line named;
/// `new_path` is the scratch location a rewritten copy would be written
/// to; `changed` records whether any transformation mutated `tokens`.
pub struct ResponseFile {
    pub original_path: String,
    pub new_path: String,
    pub tokens: Vec<String>,
    pub changed: bool,
}

/// Mathematical view of a [`ResponseFile`].
#[verifier::ext_equal]
pub ghost struct ResponseFileView {
    pub original_path: Seq<char>,
    pub new_path: Seq<char>,
    pub tokens: Seq<Seq<char>>,
    pub changed: bool,
}

impl View for ResponseFile {
    type V = ResponseFileView;

    open spec fn view(&self) -> ResponseFileView {
        ResponseFileView {
            original_path: self.original_path@,
            new_path: self.new_path@,
            tokens: self.tokens.deep_view(),
            changed: self.changed,
        }
    }
}

/// The store a rewrite session mutates in place: the top-level argument
/// list and the response files referenced from it.
pub struct ArgumentStore {
    pub arguments: Vec<String>,
    pub files: Vec<ResponseFile>,
}

/// Mathematical view of an [`ArgumentStore`].
#[verifier::ext_equal]
pub ghost struct StoreView {
    pub arguments: Seq<Seq<char>>,
    pub files: Seq<ResponseFileView>,
}

impl View for ArgumentStore {
    type V = StoreView;

    open spec fn view(&self) -> StoreView {
        StoreView { arguments: self.arguments.deep_view(), files: self.files.deep_view() }
    }
}

impl DeepView for ResponseFile {
    type V = ResponseFileView;

    open spec fn deep_view(&self) -> ResponseFileView {
        self.view()
    }
}

/// Index of the first response file loaded for path `p`, or `-1`.
pub open spec fn file_index(files: Seq<ResponseFileView>, p: Seq<char>) -> int
    decreases files.len(),
{
    if files.len() == 0 {
        -1
    } else if files[0].original_path == p {
        0
    } else {
        let r = file_index(files.drop_first(), p);
        if r < 0 {
            -1
        } else {
            1 + r
        }
    }
}

/// `file_index` names the first index whose file is keyed by `p`.
pub proof fn lemma_file_index_first(files: Seq<ResponseFileView>, p: Seq<char>)
    ensures
        file_index(files, p) >= 0 ==> 0 <= file_index(files, p) < files.len() && files[file_index(
            files,
            p,
        )].original_path == p && forall|k: int|
            0 <= k < file_index(files, p) ==> files[k].original_path != p,
        file_index(files, p) < 0 ==> forall|k: int|
            0 <= k < files.len() ==> files[k].original_path != p,
    decreases files.len(),
{
    if files.len() == 0 {
    } else if files[0].original_path == p {
    } else {
        lemma_file_index_first(files.drop_first(), p);
        assert(forall|k: int|
            1 <= k < files.len() ==> files[k] == files.drop_first()[k - 1]);
    }
}

/// The store's response files are keyed by distinct original paths.
pub open spec fn store_wf(sv: StoreView) -> bool {
    forall|i: int, j: int|
        0 <= i < j < sv.files.len() ==> sv.files[i].original_path != sv.files[j].original_path
}

/// Two stores whose files sit at the same paths are equally well formed.
pub proof fn lemma_store_wf_same_paths(a: StoreView, b: StoreView)
    requires
        a.files.len() == b.files.len(),
        forall|i: int| 0 <= i < a.files.len() ==> a.files[i].original_path == b.files[i].original_path,
    ensures
        store_wf(a) == store_wf(b),
{
    if store_wf(a) {
        assert forall|i: int, j: int| 0 <= i < j < b.files.len() implies b.files[i].original_path
            != b.files[j].original_path by {
            assert(a.files[i].original_path != a.files[j].original_path);
        }
    }
    if store_wf(b) {
        assert forall|i: int, j: int| 0 <= i < j < a.files.len() implies a.files[i].original_path
            != a.files[j].original_path by {
            assert(b.files[i].original_path != b.files[j].original_path);
        }
    }
}

impl ArgumentStore {
    /// The store's response files are keyed by distinct original paths.
    pub open spec fn wf(&self) -> bool {
        store_wf(self@)
    }

    /// An empty store: no arguments, no response files.
    pub fn new() -> (s: ArgumentStore)
        ensures
            s@.arguments == Seq::<Seq<char>>::empty(),
            s@.files == Seq::<ResponseFileView>::empty(),
            s.wf(),
    {
        let s = ArgumentStore { arguments: Vec::new(), files: Vec::new() };
        proof {
            assert(s@.arguments =~= Seq::<Seq<char>>::empty());
            assert(s@.files =~= Seq::<ResponseFileView>::empty());
        }
        s
    }

    /// Appends one token to the top-level argument list.
    pub fn push_argument(&mut self, t: String)
        ensures
            final(self)@.arguments == old(self)@.arguments.push(t@),
            final(self)@.files == old(self)@.files,
            final(self).wf() == old(self).wf(),
    {
        self.arguments.push(t);
        proof {
            assert(self@.arguments =~= old(self)@.arguments.push(t@));
            assert(self@.files =~= old(self)@.files);
        }
    }

    /// Whether a response file was already loaded for `path`.
    pub fn has_file(&self, path: &str) -> (r: bool)
        ensures
            r == (file_index(self@.files, path@) >= 0),
    {
        proof {
            lemma_file_index_first(self@.files, path@);
        }
        let mut i: usize = 0;
        while i < self.files.len()
            invariant
                i <= self.files.len(),
                self@.files.len() == self.files.len(),
                forall|k: int| 0 <= k < i ==> self@.files[k].original_path != path@,
                file_index(self@.files, path@) >= 0 ==> 0 <= file_index(self@.files, path@)
                    < self@.files.len() && self@.files[file_index(self@.files, path@)].original_path
                    == path@,
                file_index(self@.files, path@) < 0 ==> forall|k: int|
                    0 <= k < self@.files.len() ==> self@.files[k].original_path != path@,
            decreases self.files.len() - i,
        {
            let f = &self.files[i];
            if crate::strutil::str_eq(f.original_path.as_str(), path) {
                proof {
                    assert(self@.files[i as int] == self.files@[i as int].deep_view());
                    assert(self@.files[i as int].original_path == path@);
                }
                return true;
            }
            proof {
                assert(self@.files[i as int] == self.files@[i as int].deep_view());
            }
            i += 1;
        }
        false
    }

    /// Loads a response file the first time its `@` reference is seen:
    /// the raw text (or nothing, for a file that could not be read) is
    /// normalized and tokenized and the file is recorded under `path`
    /// with the scratch location `new_path`.  A path already present is
    /// left exactly as it is.
    pub fn load_file(&mut self, path: String, new_path: String, content: Option<&String>)
        requires
            old(self).wf(),
        ensures
            final(self).wf(),
            file_index(old(self)@.files, path@) >= 0 ==> final(self)@ == old(self)@,
            file_index(old(self)@.files, path@) < 0 ==> final(self)@.arguments == old(
                self,
            )@.arguments && final(self)@.files == old(self)@.files.push(
                (ResponseFileView {
                    original_path: path@,
                    new_path: new_path@,
                    tokens: match content {
                        Some(c) => crate::codec::tokenize_spec(crate::codec::normalize_spec(c@)),
                        None => Seq::<Seq<char>>::empty(),
                    },
                    changed: false,
                }),
            ),
    {
        if self.has_file(path.as_str()) {
            return ;
        }
        proof {
            lemma_file_index_first(self@.files, path@);
        }
        let tokens: Vec<String> = match content {
            Some(c) => crate::codec::parse_response_text(c.as_str()),
            None => Vec::new(),
        };
        proof {
            if content is None {
                assert(tokens.deep_view() =~= Seq::<Seq<char>>::empty());
            }
        }
        let f = ResponseFile { original_path: path, new_path, tokens, changed: false };
        let ghost old_files = self@.files;
        self.files.push(f);
        proof {
            assert(self@.files =~= old_files.push(f@));
            assert(self@.arguments =~= old(self)@.arguments);
            assert forall|i: int, j: int| 0 <= i < j < self@.files.len() implies self@.files[i].original_path
                != self@.files[j].original_path by {
                if j == self@.files.len() - 1 {
                    assert(old_files[i].original_path != f@.original_path);
                }
            }
        }
    }

    /// How many response files the store holds.
    pub fn num_files(&self) -> (n: usize)
        ensures
            n == self@.files.len(),
    {
        self.files.len()
    }

    /// Read access to the response file at index `i`.
    pub fn file_at(&self, i: usize) -> (f: &ResponseFile)
        requires
            i < self@.files.len(),
        ensures
            f@ == self@.files[i as int],
    {
        &self.files[i]
    }
}

} // verus!
