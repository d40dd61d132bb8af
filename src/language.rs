//! Language names, as carried by a request's host.
use vstd::prelude::*;
use vstd::string::*;

use crate::error::ResolveError;

verus! {

/// The suffix that a host must carry after the language name.
pub const HOST_SUFFIX: &'static str = ".docs";

/// The characters of [`HOST_SUFFIX`].
pub open spec fn host_suffix() -> Seq<char> {
    seq!['.', 'd', 'o', 'c', 's']
}

/// The language that a host names: what precedes the suffix, where the host
/// ends with the suffix and something precedes it.
pub open spec fn language_of_host(host: Seq<char>) -> Option<Seq<char>> {
    let n = host.len() - host_suffix().len();
    if n > 0 && host.subrange(n, host.len() as int) == host_suffix() {
        Some(host.take(n))
    } else {
        None
    }
}

/// A non-empty language name, the first key of the registry.
pub struct LanguageName {
    name: String,
}

impl View for LanguageName {
    type V = Seq<char>;

    closed spec fn view(&self) -> Seq<char> {
        self.name@
    }
}

impl LanguageName {
    #[verifier::type_invariant]
    spec fn inv(&self) -> bool {
        self.name@.len() > 0
    }

    /// The name, where it is not empty.
    pub fn new(name: String) -> (r: Option<LanguageName>)
        ensures
            r is Some <==> name@.len() > 0,
            r matches Some(l) ==> l@ == name@,
    {
        if name.as_str().unicode_len() > 0 {
            Some(LanguageName { name })
        } else {
            None
        }
    }

    /// The language named by a request's host, `<language>.docs`. A missing
    /// host, one without the suffix, or one with nothing before it is
    /// `BadAddressing`.
    pub fn from_host_name(host: Option<&str>) -> (r: Result<LanguageName, ResolveError>)
        ensures
            match host {
                None => r == Err::<LanguageName, ResolveError>(ResolveError::BadAddressing),
                Some(h) => match language_of_host(h@) {
                    Some(l) => r matches Ok(name) && name@ == l,
                    None => r == Err::<LanguageName, ResolveError>(ResolveError::BadAddressing),
                },
            },
    {
        let h = match host {
            None => return Err(ResolveError::BadAddressing),
            Some(h) => h,
        };
        let suffix = HOST_SUFFIX;
        proof {
            reveal_strlit(".docs");
        }
        assert(suffix@ =~= host_suffix());
        let n = h.unicode_len();
        let k = suffix.unicode_len();
        if n <= k {
            return Err(ResolveError::BadAddressing);
        }
        let start = n - k;
        let mut j: usize = 0;
        while j < k
            invariant
                host == Some(h),
                n == h@.len(),
                k == suffix@.len(),
                suffix@ == host_suffix(),
                start == n - k,
                j <= k,
                forall|m: int| 0 <= m < j ==> h@[start + m] == suffix@[m],
            decreases k - j,
        {
            if h.get_char(start + j) != suffix.get_char(j) {
                assert(h@.subrange(start as int, n as int)[j as int] != host_suffix()[j as int]);
                return Err(ResolveError::BadAddressing);
            }
            j = j + 1;
        }
        assert(h@.subrange(start as int, n as int) =~= host_suffix());
        let name = h.substring_char(0, start).to_owned();
        assert(name@ =~= h@.take(start as int));
        Ok(LanguageName { name })
    }

    /// The name as text.
    pub fn as_str(&self) -> (r: &str)
        ensures
            r@ == self@,
            r@.len() > 0,
    {
        proof {
            use_type_invariant(self);
        }
        self.name.as_str()
    }
}

} // verus!
