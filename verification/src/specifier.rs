//! The specifiers of modules, which are absolute URLs.

use vstd::prelude::*;

use crate::text::{
    alphanumeric, before_first, before_last, begins_with, characters, same_text, starts_with,
    strip_prefix_or_whole, text_before_first, text_before_last, without_prefix,
};

verus! {

/// An absolute URL, written as text in its normal form.
#[derive(Debug)]
pub struct ModuleSpecifier {
    pub text: String,
}

/// Why a text is no specifier.
#[derive(Debug)]
pub struct SpecifierError {
    pub message: String,
}

/// The scheme of a URL.
pub open spec fn scheme_of(url: Seq<char>) -> Seq<char> {
    before_first(url, ':')
}

/// Whether a URL is that of a file.
pub open spec fn is_file_url(url: Seq<char>) -> bool {
    scheme_of(url) == "file"@
}

/// Whether a URL is that of a module on the web.
pub open spec fn is_remote_url(url: Seq<char>) -> bool {
    scheme_of(url) == "https"@ || scheme_of(url) == "http"@
}

/// What parsing a text as a URL gives: the URL in its normal form, or a message.
pub uninterp spec fn parsed_url(text: Seq<char>) -> Result<Seq<char>, Seq<char>>;

/// `deno_ast::ModuleSpecifier::parse`, which is `url::Url::parse`: reads a text as
/// an absolute URL and writes it in its normal form. The normal form of a file's
/// URL has two slashes behind the colon.
#[verifier::external_body]
fn parse_url(text: &str) -> (r: Result<String, String>)
    ensures
        match r {
            Ok(url) => parsed_url(text@) == Ok::<Seq<char>, Seq<char>>(url@) && (is_file_url(url@)
                ==> begins_with(url@, "file://"@)),
            Err(message) => parsed_url(text@) == Err::<Seq<char>, Seq<char>>(message@),
        },
{
    match deno_ast::ModuleSpecifier::parse(text) {
        Ok(url) => Ok(url.to_string()),
        Err(err) => Err(err.to_string()),
    }
}

impl ModuleSpecifier {
    pub open spec fn view(&self) -> Seq<char> {
        self.text@
    }

    /// A file's URL has slashes.
    pub open spec fn wf(&self) -> bool {
        is_file_url(self@) ==> begins_with(self@, "file://"@)
    }

    /// Reads a text as a specifier.
    pub fn parse(text: &str) -> (r: Result<ModuleSpecifier, SpecifierError>)
        ensures
            match r {
                Ok(specifier) => parsed_url(text@) == Ok::<Seq<char>, Seq<char>>(specifier@)
                    && specifier.wf(),
                Err(err) => parsed_url(text@) == Err::<Seq<char>, Seq<char>>(err.message@),
            },
    {
        match parse_url(text) {
            Ok(text) => Ok(ModuleSpecifier { text }),
            Err(message) => Err(SpecifierError { message }),
        }
    }

    /// Whether a file's URL has slashes.
    pub fn is_well_formed(&self) -> (r: bool)
        ensures
            r == self.wf(),
    {
        !self.is_file() || starts_with(self.text.as_str(), "file://")
    }

    pub fn dup(&self) -> (r: ModuleSpecifier)
        ensures
            r@ == self@,
            r.wf() == self.wf(),
    {
        ModuleSpecifier { text: self.text.clone() }
    }

    pub fn same(&self, other: &ModuleSpecifier) -> (r: bool)
        ensures
            r == (self@ == other@),
    {
        self.text == other.text
    }

    /// The scheme of the URL.
    pub fn scheme(&self) -> (r: String)
        ensures
            r@ == scheme_of(self@),
    {
        text_before_first(self.text.as_str(), ':')
    }

    /// Whether this is a file.
    pub fn is_file(&self) -> (r: bool)
        ensures
            r == is_file_url(self@),
    {
        same_text(self.scheme().as_str(), "file")
    }
}

/// What a sequence of specifiers holds.
pub open spec fn urls(s: Seq<ModuleSpecifier>) -> Seq<Seq<char>> {
    Seq::new(s.len(), |i: int| s[i]@)
}

/// Whether every specifier is well formed.
pub open spec fn all_wf(s: Seq<ModuleSpecifier>) -> bool {
    forall|i: int| 0 <= i < s.len() ==> (#[trigger] s[i]).wf()
}

/// Whether a module is on the web.
pub fn is_remote_specifier(specifier: &ModuleSpecifier) -> (r: bool)
    ensures
        r == is_remote_url(specifier@),
{
    let scheme: String = specifier.scheme();
    same_text(scheme.as_str(), "https") || same_text(scheme.as_str(), "http")
}

/// The first of the texts, up to `n`, that is no URL.
pub open spec fn first_error(values: Seq<Seq<char>>, n: nat) -> Option<Seq<char>>
    decreases n,
{
    if n == 0 {
        None
    } else if first_error(values, (n - 1) as nat) is Some {
        first_error(values, (n - 1) as nat)
    } else {
        match parsed_url(values[n - 1]) {
            Ok(_) => None,
            Err(message) => Some(message),
        }
    }
}

/// Reads every text as a specifier, or gives the message for the first that is
/// none.
pub fn parse_module_specifiers(values: &Vec<String>) -> (r: Result<
    Vec<ModuleSpecifier>,
    SpecifierError,
>)
    ensures
        match r {
            Ok(specifiers) => {
                &&& specifiers@.len() == values@.len()
                &&& all_wf(specifiers@)
                &&& forall|i: int|
                    0 <= i < values@.len() ==> parsed_url((#[trigger] values@[i])@) == Ok::<
                        Seq<char>,
                        Seq<char>,
                    >(specifiers@[i]@)
            },
            Err(err) => first_error(crate::text::texts(values@), values@.len()) == Some(
                err.message@,
            ),
        },
        r is Ok <==> first_error(crate::text::texts(values@), values@.len()) is None,
{
    let ghost all = crate::text::texts(values@);
    let mut specifiers: Vec<ModuleSpecifier> = Vec::new();
    let mut i: usize = 0;
    while i < values.len()
        invariant
            i <= values@.len(),
            all == crate::text::texts(values@),
            specifiers@.len() == i,
            all_wf(specifiers@),
            first_error(all, i as nat) is None,
            forall|j: int|
                0 <= j < i ==> parsed_url((#[trigger] values@[j])@) == Ok::<Seq<char>, Seq<char>>(
                    specifiers@[j]@,
                ),
        decreases values@.len() - i,
    {
        assert(all[i as int] == values@[i as int]@);
        match ModuleSpecifier::parse(values[i].as_str()) {
            Ok(specifier) => {
                specifiers.push(specifier);
            },
            Err(err) => {
                proof {
                    lemma_first_error_stays(all, (i + 1) as nat, values@.len());
                }
                return Err(err);
            },
        }
        i = i + 1;
    }
    Ok(specifiers)
}

proof fn lemma_first_error_stays(values: Seq<Seq<char>>, m: nat, n: nat)
    requires
        m <= n,
        first_error(values, m) is Some,
    ensures
        first_error(values, n) == first_error(values, m),
    decreases n - m,
{
    if m < n {
        lemma_first_error_stays(values, m, (n - 1) as nat);
    }
}

/// The folder of a file: what stands before the last slash.
pub open spec fn folder(url: Seq<char>) -> Seq<char> {
    before_last(url, '/').unwrap()
}

/// The folder that is kept after the first `n` specifiers: that of the first
/// file, replaced by each later one that the folder kept so far begins with.
pub open spec fn root_upto(specifiers: Seq<Seq<char>>, n: nat) -> Option<Seq<char>>
    decreases n,
{
    if n == 0 {
        None
    } else {
        let root = root_upto(specifiers, (n - 1) as nat);
        let url = specifiers[n - 1];
        if is_file_url(url) && (root is None || begins_with(root.unwrap(), folder(url))) {
            Some(folder(url))
        } else {
            root
        }
    }
}

/// The folder to which displayed paths are relative.
pub open spec fn root_dir(specifiers: Seq<Seq<char>>) -> Option<Seq<char>> {
    let root = root_upto(specifiers, specifiers.len());
    if root == Some("file://"@) {
        Some("file:///"@)
    } else {
        root
    }
}

proof fn lemma_has_slash(s: Seq<char>, i: int)
    requires
        0 <= i < s.len(),
        s[i] == '/',
    ensures
        before_last(s, '/') is Some,
    decreases s.len(),
{
    if s.last() != '/' {
        lemma_has_slash(s.drop_last(), i);
    }
}

/// The folder of a file.
fn get_folder(specifier: &ModuleSpecifier) -> (r: String)
    requires
        specifier.wf(),
        is_file_url(specifier@),
    ensures
        r@ == folder(specifier@),
        before_last(specifier@, '/') is Some,
{
    proof {
        reveal_strlit("file://");
        assert(specifier@.take(7)[5] == "file://"@[5]);
        lemma_has_slash(specifier@, 5);
    }
    text_before_last(specifier.text.as_str(), '/').unwrap()
}

/// The folder to which displayed paths are relative: the folder of one of the
/// files. There is none where there is no file.
pub fn get_root_dir(specifiers: &Vec<ModuleSpecifier>) -> (r: Option<String>)
    requires
        all_wf(specifiers@),
    ensures
        match r {
            Some(root) => root_dir(urls(specifiers@)) == Some(root@),
            None => root_dir(urls(specifiers@)) is None,
        },
{
    let ghost all = urls(specifiers@);
    let mut root: Option<String> = None;
    let mut i: usize = 0;
    while i < specifiers.len()
        invariant
            i <= specifiers@.len(),
            all == urls(specifiers@),
            all_wf(specifiers@),
            match root {
                Some(root) => root_upto(all, i as nat) == Some(root@),
                None => root_upto(all, i as nat) is None,
            },
        decreases specifiers@.len() - i,
    {
        assert(all[i as int] == specifiers@[i as int]@);
        if specifiers[i].is_file() {
            let folder: String = get_folder(&specifiers[i]);
            let replace: bool = match &root {
                Some(kept) => starts_with(kept.as_str(), folder.as_str()),
                None => true,
            };
            if replace {
                root = Some(folder);
            }
        }
        i = i + 1;
    }
    match root {
        Some(root) => if same_text(root.as_str(), "file://") {
            Some("file:///".to_owned())
        } else {
            Some(root)
        },
        None => None,
    }
}

proof fn lemma_root_upto_minimal(specifiers: Seq<Seq<char>>, n: nat, i: int)
    requires
        0 <= i < n <= specifiers.len(),
        is_file_url(specifiers[i]),
    ensures
        root_upto(specifiers, n) is Some,
        begins_with(root_upto(specifiers, n).unwrap(), folder(specifiers[i])) ==> root_upto(
            specifiers,
            n,
        ) == Some(folder(specifiers[i])),
        exists|k: int|
            0 <= k < n && is_file_url(specifiers[k]) && root_upto(specifiers, n) == Some(
                folder(#[trigger] specifiers[k]),
            ),
    decreases n,
{
    let m = (n - 1) as nat;
    let url = specifiers[n - 1];
    let earlier = root_upto(specifiers, m);
    let later = root_upto(specifiers, n);
    let f = folder(specifiers[i]);
    if i < n - 1 {
        lemma_root_upto_minimal(specifiers, m, i);
        let k = choose|k: int|
            0 <= k < m && is_file_url(specifiers[k]) && root_upto(specifiers, m) == Some(
                folder(#[trigger] specifiers[k]),
            );
        if later != earlier {
            assert(later == Some(folder(specifiers[n - 1])));
            if begins_with(later.unwrap(), f) {
                assert(earlier.unwrap().take(f.len() as int) =~= later.unwrap().take(
                    f.len() as int,
                )) by {
                    assert(earlier.unwrap().take(later.unwrap().len() as int) == later.unwrap());
                    assert forall|j: int| 0 <= j < f.len() implies earlier.unwrap()[j]
                        == later.unwrap()[j] by {
                        assert(earlier.unwrap().take(later.unwrap().len() as int)[j]
                            == later.unwrap()[j]);
                    }
                }
                assert(begins_with(earlier.unwrap(), f));
                assert(earlier == Some(f));
                assert(later.unwrap().len() <= f.len());
                assert(later.unwrap().take(f.len() as int) =~= later.unwrap());
            }
        } else {
            assert(later == Some(folder(specifiers[k])));
        }
    } else {
        if later == Some(folder(url)) {
            assert(is_file_url(specifiers[n - 1]));
        } else {
            // the folder that was kept is that of an earlier file
            assert(earlier is Some);
            lemma_root_is_some_folder(specifiers, m);
        }
    }
}

proof fn lemma_root_is_some_folder(specifiers: Seq<Seq<char>>, n: nat)
    requires
        n <= specifiers.len(),
        root_upto(specifiers, n) is Some,
    ensures
        exists|k: int|
            0 <= k < n && is_file_url(specifiers[k]) && root_upto(specifiers, n) == Some(
                folder(#[trigger] specifiers[k]),
            ),
    decreases n,
{
    let m = (n - 1) as nat;
    if root_upto(specifiers, n) == Some(folder(specifiers[n - 1])) && is_file_url(
        specifiers[n - 1],
    ) {
        assert(folder(specifiers[n - 1]) == root_upto(specifiers, n).unwrap());
    } else {
        lemma_root_is_some_folder(specifiers, m);
        let k = choose|k: int|
            0 <= k < m && is_file_url(specifiers[k]) && root_upto(specifiers, m) == Some(
                folder(#[trigger] specifiers[k]),
            );
        assert(root_upto(specifiers, n) == Some(folder(specifiers[k])));
    }
}

/// A folder as the root folder: that of all files ends with a slash.
pub open spec fn as_root(folder: Seq<char>) -> Seq<char> {
    if folder == "file://"@ {
        "file:///"@
    } else {
        folder
    }
}

/// The root folder is the folder of one of the files, and no file lies in a
/// folder above it: where the root folder begins with the folder of a file, it
/// is that folder.
pub proof fn law_root_dir_is_topmost(specifiers: Seq<Seq<char>>, i: int)
    requires
        0 <= i < specifiers.len(),
        is_file_url(specifiers[i]),
    ensures
        root_dir(specifiers) is Some,
        begins_with(root_dir(specifiers).unwrap(), folder(specifiers[i])) ==> root_dir(specifiers)
            == Some(as_root(folder(specifiers[i]))),
        exists|k: int|
            0 <= k < specifiers.len() && is_file_url(specifiers[k]) && root_dir(specifiers) == Some(
                as_root(folder(#[trigger] specifiers[k])),
            ),
{
    let n = specifiers.len();
    lemma_root_upto_minimal(specifiers, n, i);
    lemma_root_is_some_folder(specifiers, n);
    let k = choose|k: int|
        0 <= k < n && is_file_url(specifiers[k]) && root_upto(specifiers, n) == Some(
            folder(#[trigger] specifiers[k]),
        );
    assert(root_dir(specifiers) == Some(as_root(folder(specifiers[k]))));
    let top = root_upto(specifiers, n).unwrap();
    let own = folder(specifiers[i]);
    if top == "file://"@ && begins_with("file:///"@, own) {
        reveal_strlit("file://");
        reveal_strlit("file:///");
        if own.len() == 8 {
            assert(own =~= "file:///"@);
        } else {
            assert forall|j: int| 0 <= j < own.len() implies own[j] == top[j] by {
                assert(own[j] == "file:///"@.take(own.len() as int)[j]);
            }
            assert(top.take(own.len() as int) =~= own);
            assert(begins_with(top, own));
        }
    }
}

/// How a specifier is shown: a file's without the root folder in front.
pub open spec fn displayed(root: Option<Seq<char>>, url: Seq<char>) -> Seq<char> {
    if root is Some && is_file_url(url) {
        without_prefix(url, root.unwrap())
    } else {
        url
    }
}

/// How a specifier is shown.
pub fn displayed_specifier(root: &Option<String>, specifier: &ModuleSpecifier) -> (r: String)
    ensures
        r@ == displayed(
            match root {
                Some(root) => Some(root@),
                None => None,
            },
            specifier@,
        ),
{
    match root {
        Some(prefix) => if specifier.is_file() {
            strip_prefix_or_whole(specifier.text.as_str(), prefix.as_str())
        } else {
            specifier.text.clone()
        },
        None => specifier.text.clone(),
    }
}

/// A text as an identifier: what is neither a letter nor a number becomes an
/// underscore.
pub open spec fn identifier_text(s: Seq<char>) -> Seq<char> {
    Seq::new(
        s.len(),
        |i: int|
            if alphanumeric(s[i]) {
                s[i]
            } else {
                '_'
            },
    )
}

/// A text as an identifier.
pub fn to_identifier(text: &str) -> (r: String)
    ensures
        r@ == identifier_text(text@),
{
    let chars: Vec<char> = characters(text);
    let mut r: String = String::new();
    let mut i: usize = 0;
    while i < chars.len()
        invariant
            i <= chars@.len(),
            chars@ == text@,
            r@ == identifier_text(text@).take(i as int),
        decreases chars@.len() - i,
    {
        let c: char = if chars[i].is_alphanumeric() {
            chars[i]
        } else {
            '_'
        };
        r.push(c);
        i = i + 1;
        assert(r@ =~= identifier_text(text@).take(i as int));
    }
    assert(r@ =~= identifier_text(text@));
    r
}

}
