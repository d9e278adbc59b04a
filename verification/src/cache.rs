//! Where the shared cache lives.
//!
//! One directory holds the store and the memo records for every project on the
//! machine. That is deliberate: the graphs and the packages are
//! content-addressed, so two checkouts of the same project, or two different
//! projects sharing a dependency, reuse the same objects.

use vstd::prelude::*;
use crate::cas::CasError;
use crate::graph::memo::MemoError;
use crate::graph::memo;
use crate::{cas, native, text};

verus! {

/// Why there is no cache.
#[derive(Debug)]
pub enum CacheError {
    NoHome,
    Cas(CasError),
    Memo(MemoError),
}

/// The message for a failure.
pub open spec fn cache_error_text(e: CacheError) -> Seq<char> {
    match e {
        CacheError::NoHome => "cannot locate a cache directory: set OPAL_CACHE_DIR or HOME"@,
        CacheError::Cas(e) => cas::cas_error_text(e),
        CacheError::Memo(e) => memo::memo_error_text(e),
    }
}

impl CacheError {
    /// The message shown to the user.
    pub fn to_string(&self) -> (r: String)
        ensures
            r@ == cache_error_text(*self),
    {
        match self {
            CacheError::NoHome =>
                "cannot locate a cache directory: set OPAL_CACHE_DIR or HOME".to_string(),
            CacheError::Cas(e) => e.to_string(),
            CacheError::Memo(e) => e.to_string(),
        }
    }
}

/// A cache directory.
#[derive(Debug)]
pub struct CacheRoot {
    path: String,
}

impl View for CacheRoot {
    type V = Seq<char>;

    closed spec fn view(&self) -> Seq<char> {
        self.path@
    }
}

impl Clone for CacheRoot {
    fn clone(&self) -> (r: Self)
        ensures
            r@ == self@,
    {
        CacheRoot { path: self.path.clone() }
    }
}

/// What the environment says of where a cache may be.
pub struct Surroundings<'a> {
    /// `$OPAL_CACHE_DIR`. Tests and CI set this; users rarely need to.
    pub explicit: Option<&'a str>,
    pub home: Option<&'a str>,
    /// `$XDG_CACHE_HOME`, which counts only where it is absolute.
    pub xdg: Option<&'a str>,
    /// Whether caches belong below `Library`.
    pub has_library: bool,
}

/// Where the cache is: where it is said to be, else below the platform's cache
/// directory.
pub open spec fn located(
    explicit: Option<Seq<char>>,
    home: Option<Seq<char>>,
    xdg: Option<Seq<char>>,
    has_library: bool,
) -> Option<Seq<char>> {
    match (explicit, home) {
        (Some(given), _) => Some(given),
        (None, None) => None,
        (None, Some(home)) => {
            let base = if has_library {
                native::joined_native(native::joined_native(home, "Library"@), "Caches"@)
            } else if xdg matches Some(given) && given.len() > 0 && given[0] == '/' {
                xdg->0
            } else {
                native::joined_native(home, ".cache"@)
            };
            Some(native::joined_native(base, "opal"@))
        },
    }
}

impl CacheRoot {
    /// The cache at a path.
    pub fn at(path: &str) -> (r: Self)
        ensures
            r@ == path@,
    {
        CacheRoot { path: path.to_string() }
    }

    /// `$OPAL_CACHE_DIR`, else the platform cache directory.
    pub fn discover(around: &Surroundings) -> (r: Result<Self, CacheError>)
        ensures
            match r {
                Ok(root) => located(
                    given(around.explicit),
                    given(around.home),
                    given(around.xdg),
                    around.has_library,
                ) == Some(root@),
                Err(CacheError::NoHome) => around.explicit is None && around.home is None,
                Err(_) => false,
            },
    {
        if let Some(explicit) = around.explicit {
            return Ok(Self::at(explicit));
        }
        let home = match around.home {
            Some(home) => home,
            None => {
                return Err(CacheError::NoHome);
            },
        };
        let xdg = match around.xdg {
            Some(path) => {
                let chars = text::chars_of(path);
                if chars.len() > 0 && chars[0] == '/' {
                    Some(path)
                } else {
                    None
                }
            },
            None => None,
        };
        let base = if around.has_library {
            native::join(native::join(home, "Library").as_str(), "Caches")
        } else {
            match xdg {
                Some(path) => path.to_string(),
                None => native::join(home, ".cache"),
            }
        };
        Ok(Self::at(native::join(base.as_str(), "opal").as_str()))
    }

    /// The directory.
    pub fn path(&self) -> (r: &str)
        ensures
            r@ == self@,
    {
        self.path.as_str()
    }

    /// The directory of the store.
    pub fn cas_dir(&self) -> (r: String)
        ensures
            r@ == native::joined_native(self@, "cas"@),
    {
        native::join(self.path.as_str(), "cas")
    }

    /// The directory of the memo records.
    pub fn records_dir(&self) -> (r: String)
        ensures
            r@ == native::joined_native(self@, "memo"@),
    {
        native::join(self.path.as_str(), "memo")
    }

    /// The directory of the project index.
    pub fn projects_dir(&self) -> (r: String)
        ensures
            r@ == native::joined_native(self@, "projects"@),
    {
        native::join(self.path.as_str(), "projects")
    }
}

/// What a variable holds.
pub open spec fn given(value: Option<&str>) -> Option<Seq<char>> {
    match value {
        Some(value) => Some(value@),
        None => None,
    }
}

/// The cache is where it is said to be. Else it is `opal` below the platform's cache
/// directory: `Library/Caches` of the home where caches belong there, else what
/// `$XDG_CACHE_HOME` says as long as that is absolute, else `.cache` of the home.
pub proof fn caches_are_found(home: Seq<char>, xdg: Seq<char>, told: Seq<char>, library: bool)
    requires
        home.len() > 0 && home.last() != '/',
        xdg.len() > 0 && xdg.last() != '/',
    ensures
        located(Some(told), Some(home), Some(xdg), library) == Some(told),
        located(Some(told), None, None, library) == Some(told),
        located(None, None, Some(xdg), library) is None,
        located(None, Some(home), Some(xdg), true) == Some(home + "/Library/Caches/opal"@),
        located(None, Some(home), None, false) == Some(home + "/.cache/opal"@),
        xdg[0] == '/' ==> located(None, Some(home), Some(xdg), false) == Some(xdg + "/opal"@),
        xdg[0] != '/' ==> located(None, Some(home), Some(xdg), false) == Some(
            home + "/.cache/opal"@,
        ),
{
    reveal_strlit("Library");
    reveal_strlit("Caches");
    reveal_strlit(".cache");
    reveal_strlit("opal");
    reveal_strlit("/Library/Caches/opal");
    reveal_strlit("/.cache/opal");
    reveal_strlit("/opal");
    let library_caches = native::joined_native(
        native::joined_native(home, "Library"@),
        "Caches"@,
    );
    assert(native::joined_native(library_caches, "opal"@) =~= home + "/Library/Caches/opal"@);
    assert(native::joined_native(native::joined_native(home, ".cache"@), "opal"@) =~= home
        + "/.cache/opal"@);
    assert(native::joined_native(xdg, "opal"@) =~= xdg + "/opal"@);
}

} // verus!
