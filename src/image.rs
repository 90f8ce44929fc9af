//! Camera images, named `DSC` followed by a five-digit number and `.JPG`.
use vstd::prelude::*;
use crate::Error;
use crate::grammar::{ascii_bytes, byte_is_digit, digit, is_digit};
use crate::select::{bound_ok, contains_key, keys_in_range, names_in_range, selected_names};

verus! {

/// The image number that a file name carries, if the name is an image name.
pub open spec fn image_number_of(s: Seq<char>) -> Option<u64> {
    if s.len() == 12 && s[0] == 'D' && s[1] == 'S' && s[2] == 'C' && is_digit(s[3]) && is_digit(
        s[4],
    ) && is_digit(s[5]) && is_digit(s[6]) && is_digit(s[7]) && s[8] == '.' && s[9] == 'J' && s[10]
        == 'P' && s[11] == 'G' {
        Some(
            (digit(s[3]) * 10000 + digit(s[4]) * 1000 + digit(s[5]) * 100 + digit(s[6]) * 10
                + digit(s[7])) as u64,
        )
    } else {
        None
    }
}

/// The image numbers of a list of file names, `None` where a name is no image name.
pub open spec fn image_keys(names: Seq<String>) -> Seq<Option<u64>> {
    names.map_values(|n: String| image_number_of(n@))
}

/// A configured bound as a key.
pub open spec fn key_of_bound(b: Option<usize>) -> Option<u64> {
    match b {
        Some(n) => Some(n as u64),
        None => None,
    }
}

/// The image number of a file name, if it is an image name.
pub fn extract_image_number(file_name: &str) -> (r: Option<u64>)
    ensures
        r == image_number_of(file_name@),
{
    let s = Ghost(file_name@);
    match ascii_bytes(file_name) {
        None => {
            assert(image_number_of(s@) is None) by {
                if image_number_of(s@) is Some {
                    assert(vstd::utf8::is_ascii_chars(s@));
                }
            }
            None
        },
        Some(b) => {
            if b.len() == 12 && b[0] == 68 && b[1] == 83 && b[2] == 67 && byte_is_digit(b[3])
                && byte_is_digit(b[4]) && byte_is_digit(b[5]) && byte_is_digit(b[6])
                && byte_is_digit(b[7]) && b[8] == 46 && b[9] == 74 && b[10] == 80 && b[11] == 71 {
                let n = (b[3] - 48) as u64 * 10000 + (b[4] - 48) as u64 * 1000 + (b[5] - 48) as u64
                    * 100 + (b[6] - 48) as u64 * 10 + (b[7] - 48) as u64;
                Some(n)
            } else {
                None
            }
        },
    }
}

/// Where no file name is an image name and no bound is set, nothing is selected.
pub proof fn empty_selection(names: Seq<String>, out: Seq<String>)
    requires
        forall|i: int| 0 <= i < names.len() ==> image_number_of(#[trigger] names[i]@) is None,
        selected_names(names, image_keys(names), None, None, out),
    ensures
        bound_ok(image_keys(names), None),
        keys_in_range(image_keys(names), None, None).len() == 0,
        out.len() == 0,
{
    lemma_no_keys_none_in_range(image_keys(names));
    crate::select::lemma_selected_len(names, image_keys(names), None, None, out);
}

pub(crate) proof fn lemma_no_keys_none_in_range(keys: Seq<Option<u64>>)
    requires
        forall|i: int| 0 <= i < keys.len() ==> #[trigger] keys[i] is None,
    ensures
        keys_in_range(keys, None, None).len() == 0,
    decreases keys.len(),
{
    if keys.len() > 0 {
        assert(keys[keys.len() - 1] is None);
        lemma_no_keys_none_in_range(keys.drop_last());
    }
}


/// `s` is an image name whose number lies within the bounds of `c`.
pub open spec fn number_within(c: Config, s: Seq<char>) -> bool {
    match image_number_of(s) {
        Some(m) => (c.start matches Some(f) ==> f <= m) && (c.end matches Some(l) ==> m <= l),
        None => false,
    }
}

/// The images that a successful selection returns are image names, ordered by number, each
/// with a number within the configured bounds, and as many as there are such names.
pub proof fn selection_is_ordered_and_bounded(c: Config, names: Seq<String>, r: Result<Vec<String>, Error>)
    requires
        c.paths_result(names, r),
        r is Ok,
    ensures
        selection_facts(c, names, r->Ok_0@),
{
    lemma_selection_facts(c, names, r->Ok_0@);
}

/// `out` holds image names, ordered by number, each with a number within the bounds of `c`,
/// and as many as there are such names among `names`.
pub open spec fn selection_facts(c: Config, names: Seq<String>, out: Seq<String>) -> bool {
    &&& out.len() == keys_in_range(image_keys(names), key_of_bound(c.start), key_of_bound(c.end)).len()
    &&& forall|j: int| 0 <= j < out.len() ==> #[trigger] number_within(c, out[j]@)
    &&& forall|j: int, q: int|
        0 <= j < q < out.len() ==> image_number_of(out[j]@)->0 <= image_number_of(out[q]@)->0
}

pub(crate) proof fn lemma_selection_facts(c: Config, names: Seq<String>, out: Seq<String>)
    requires
        selected_names(names, image_keys(names), key_of_bound(c.start), key_of_bound(c.end), out),
    ensures
        selection_facts(c, names, out),
{
    let keys = image_keys(names);
    let ks = crate::select::lemma_selection_ordered_in_range(
        names,
        keys,
        key_of_bound(c.start),
        key_of_bound(c.end),
        out,
    );
    crate::select::lemma_selected_len(names, keys, key_of_bound(c.start), key_of_bound(c.end), out);
    assert forall|j: int| 0 <= j < out.len() implies image_number_of(out[j]@) == Some(ks[j]) by {
        assert(crate::select::name_with_key(names, keys, ks[j], out[j]));
        let i = choose|i: int| 0 <= i < names.len() && keys[i] == Some(ks[j]) && names[i]@ == out[j]@;
        assert(keys[i] == image_number_of(names[i]@));
    }
    assert forall|j: int| 0 <= j < out.len() implies #[trigger] number_within(c, out[j]@) by {
        assert(crate::select::in_range(ks[j], key_of_bound(c.start), key_of_bound(c.end)));
    }
    assert forall|j: int, q: int| 0 <= j < q < out.len() implies image_number_of(out[j]@)->0
        <= image_number_of(out[q]@)->0 by {
        assert(image_number_of(out[j]@) == Some(ks[j]));
        assert(image_number_of(out[q]@) == Some(ks[q]));
    }
}

/// Configuration for a set of images.
pub type Config = crate::ImageConfig;

impl Config {
    /// Creates a configuration with an empty path and no bounds.
    pub fn new() -> (r: Config)
        ensures
            r.path@ == Seq::<char>::empty(),
            r.start is None,
            r.end is None,
    {
        Config { path: String::new(), start: None, end: None }
    }

    /// What selecting among the file names `names` gives.
    pub open spec fn paths_result(&self, names: Seq<String>, r: Result<Vec<String>, Error>) -> bool {
        let keys = image_keys(names);
        match r {
            Ok(out) => bound_ok(keys, key_of_bound(self.start)) && bound_ok(
                keys,
                key_of_bound(self.end),
            ) && selected_names(
                names,
                keys,
                key_of_bound(self.start),
                key_of_bound(self.end),
                out@,
            ),
            Err(e) => if !bound_ok(keys, key_of_bound(self.start)) {
                e == Error::InvalidImageNumber(self.start->0)
            } else {
                !bound_ok(keys, key_of_bound(self.end)) && e == Error::InvalidImageNumber(
                    self.end->0,
                )
            },
        }
    }

    /// Selects, from the names of the files in the image directory, the image names whose
    /// number lies within `start..=end`, ordered by number.
    ///
    /// A bound that no image name carries is an error, whatever the other bound.
    pub fn paths(&self, file_names: &Vec<String>) -> (r: Result<Vec<String>, Error>)
        ensures
            self.paths_result(file_names@, r),
    {
        let mut keys: Vec<Option<u64>> = Vec::new();
        let mut i: usize = 0;
        while i < file_names.len()
            invariant
                i <= file_names.len(),
                keys@ == image_keys(file_names@).take(i as int),
            decreases file_names.len() - i,
        {
            let k = extract_image_number(file_names[i].as_str());
            keys.push(k);
            assert(keys@ =~= image_keys(file_names@).take(i + 1));
            i = i + 1;
        }
        assert(keys@ =~= image_keys(file_names@));
        let first = match self.start {
            Some(n) => Some(n as u64),
            None => None,
        };
        let last = match self.end {
            Some(n) => Some(n as u64),
            None => None,
        };
        if let Some(n) = self.start {
            if !contains_key(&keys, n as u64) {
                return Err(Error::InvalidImageNumber(n));
            }
        }
        if let Some(n) = self.end {
            if !contains_key(&keys, n as u64) {
                return Err(Error::InvalidImageNumber(n));
            }
        }
        assert(first == key_of_bound(self.start) && last == key_of_bound(self.end));
        assert(bound_ok(keys@, first) && bound_ok(keys@, last));
        let out = names_in_range(file_names, &keys, first, last);
        Ok(out)
    }
}

} // verus!
