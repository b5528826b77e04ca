//! The in-memory container and its file list.
use vstd::prelude::*;

verus! {

/// Distance from `x` to the derived field `y`.
pub const Y_DIFFERENCE: u64 = 43;

/// Distance from `x` to the derived field `z`.
pub const Z_DIFFERENCE: u64 = 34;

/// Largest `x` for which both derived fields fit in a `u64`.
pub const MAX_X: u64 = 0xffff_ffff_ffff_ffd4;

/// A named blob of bytes.
#[derive(Clone, Debug)]
pub struct File {
    pub name: String,
    pub content: Vec<u8>,
}

impl View for File {
    type V = (Seq<char>, Seq<u8>);

    open spec fn view(&self) -> (Seq<char>, Seq<u8>) {
        (self.name@, self.content@)
    }
}

/// A comment, a timestamp `x` with its derived fields `y` and `z`, and an
/// ordered list of files.
#[derive(Debug)]
pub struct Container {
    pub comment: String,
    pub x: u64,
    pub y: u64,
    pub z: u64,
    pub files: Vec<File>,
}

/// The mathematical value of a [`Container`].
pub struct ContainerView {
    pub comment: Seq<char>,
    pub x: u64,
    pub y: u64,
    pub z: u64,
    pub files: Seq<(Seq<char>, Seq<u8>)>,
}

/// Why a fresh container could not be built.
#[derive(Clone, Copy, Debug, PartialEq, Eq)]
pub enum ClockError {
    /// The clock gave no reading, for instance because it reads earlier
    /// than the Unix epoch.
    Unavailable,
    /// The reading is so large that `y` or `z` would not fit in a `u64`.
    OutOfRange,
}

/// The views of a sequence of files.
pub open spec fn files_view(files: Seq<File>) -> Seq<(Seq<char>, Seq<u8>)> {
    files.map_values(|f: File| f@)
}

/// Holds of the files whose name is not `name`.
pub open spec fn name_differs(name: Seq<char>) -> spec_fn(File) -> bool {
    |f: File| f.name@ != name
}

/// The files of `files` whose name differs from `name`, in order.
pub open spec fn without_name(files: Seq<File>, name: Seq<char>) -> Seq<File> {
    files.filter(name_differs(name))
}

impl View for Container {
    type V = ContainerView;

    open spec fn view(&self) -> ContainerView {
        ContainerView {
            comment: self.comment@,
            x: self.x,
            y: self.y,
            z: self.z,
            files: files_view(self.files@),
        }
    }
}

impl ContainerView {
    /// `y` and `z` are derived from `x`.
    pub open spec fn wf(self) -> bool {
        &&& self.y == self.x + Y_DIFFERENCE
        &&& self.z == self.x + Z_DIFFERENCE
    }
}

/// The derived fields `(y, z)` of the timestamp `x`.
pub fn derived_fields(x: u64) -> (r: (u64, u64))
    requires
        x <= MAX_X,
    ensures
        r.0 == x + Y_DIFFERENCE,
        r.1 == x + Z_DIFFERENCE,
{
    (x + Y_DIFFERENCE, x + Z_DIFFERENCE)
}

/// Relies on std's `SystemTime::now` and `duration_since(UNIX_EPOCH)`: the
/// whole seconds since the Unix epoch, or `None` when the clock reads earlier
/// than the epoch. Nothing is promised of the value.
#[verifier::external_body]
fn seconds_since_epoch() -> (r: Option<u64>) {
    match std::time::SystemTime::now().duration_since(std::time::UNIX_EPOCH) {
        Ok(d) => Some(d.as_secs()),
        Err(_) => None,
    }
}

impl Container {
    /// A container with the given comment, stamped with the current time
    /// and holding no files.
    pub fn new(comment: &str) -> (r: Result<Container, ClockError>)
        ensures
            r matches Ok(c) ==> {
                &&& c@.wf()
                &&& c.comment@ == comment@
                &&& c.files@.len() == 0
            },
    {
        Container::with_clock_reading(comment, seconds_since_epoch())
    }

    /// A container with the given comment and no files, stamped with the
    /// clock reading `secs` (seconds since the Unix epoch), if there is one
    /// and its derived fields fit in a `u64`.
    pub fn with_clock_reading(comment: &str, secs: Option<u64>) -> (r: Result<
        Container,
        ClockError,
    >)
        ensures
            match secs {
                None => r == Err::<Container, ClockError>(ClockError::Unavailable),
                Some(x) => if x <= MAX_X {
                    r matches Ok(c) && c@.wf() && c.x == x && c.comment@ == comment@
                        && c.files@.len() == 0
                } else {
                    r == Err::<Container, ClockError>(ClockError::OutOfRange)
                },
            },
    {
        match secs {
            None => Err(ClockError::Unavailable),
            Some(x) => {
                if x > MAX_X {
                    return Err(ClockError::OutOfRange);
                }
                let (y, z) = derived_fields(x);
                Ok(Container { comment: comment.to_string(), x, y, z, files: Vec::new() })
            },
        }
    }

    /// Appends `file` to the end of the file list.
    pub fn add_file(&mut self, file: File)
        ensures
            final(self).files@ == old(self).files@.push(file),
            final(self).comment == old(self).comment,
            final(self).x == old(self).x,
            final(self).y == old(self).y,
            final(self).z == old(self).z,
    {
        self.files.push(file)
    }

    /// Removes every file named `name`, keeping the others in order.
    pub fn remove_file(&mut self, name: String)
        ensures
            final(self).files@ == without_name(old(self).files@, name@),
            final(self).comment == old(self).comment,
            final(self).x == old(self).x,
            final(self).y == old(self).y,
            final(self).z == old(self).z,
    {
        let ghost orig = self.files@;
        let ghost mut k: int = 0;
        let mut i: usize = 0;
        while i < self.files.len()
            invariant
                0 <= i <= k <= orig.len(),
                i <= self.files@.len(),
                self.files@.len() - i == orig.len() - k,
                self.files@.subrange(0, i as int) == without_name(orig.subrange(0, k), name@),
                self.files@.subrange(i as int, self.files@.len() as int) == orig.subrange(
                    k,
                    orig.len() as int,
                ),
                self.comment == old(self).comment,
                self.x == old(self).x,
                self.y == old(self).y,
                self.z == old(self).z,
            decreases self.files@.len() - i,
        {
            let ghost before = self.files@;
            assert(orig.subrange(0, k + 1) =~= orig.subrange(0, k).push(orig[k]));
            proof {
                orig.subrange(0, k).lemma_filter_push(orig[k], name_differs(name@));
            }
            let ghost tail = before.subrange(i as int, before.len() as int);
            assert(before[i as int] == orig[k]) by {
                assert(tail[0] == before[i as int]);
            }
            assert(orig.subrange(k + 1, orig.len() as int) =~= tail.subrange(1, tail.len() as int));
            assert(before.subrange(i + 1, before.len() as int) =~= tail.subrange(
                1,
                tail.len() as int,
            ));
            if self.files[i].name == name {
                self.files.remove(i);
                assert(self.files@.subrange(0, i as int) =~= before.subrange(0, i as int));
                assert(self.files@.subrange(i as int, self.files@.len() as int)
                    =~= orig.subrange(k + 1, orig.len() as int));
            } else {
                assert(self.files@.subrange(0, i + 1) =~= before.subrange(0, i as int).push(
                    orig[k],
                ));
                assert(self.files@.subrange(i + 1, self.files@.len() as int) =~= orig.subrange(
                    k + 1,
                    orig.len() as int,
                ));
                i = i + 1;
            }
            proof {
                k = k + 1;
            }
        }
        proof {
            assert(orig.subrange(0, k) =~= orig);
            assert(self.files@.subrange(0, i as int) =~= self.files@);
        }
    }

    /// The first file named `name`, if any.
    pub fn get_file(&self, name: String) -> (r: Option<&File>)
        ensures
            match r {
                Some(f) => exists|i: int|
                    #![trigger self.files@[i]]
                    0 <= i < self.files@.len() && self.files@[i] == *f && f.name@ == name@
                        && forall|j: int| 0 <= j < i ==> self.files@[j].name@ != name@,
                None => forall|i: int|
                    0 <= i < self.files@.len() ==> self.files@[i].name@ != name@,
            },
    {
        let mut i: usize = 0;
        while i < self.files.len()
            invariant
                i <= self.files@.len(),
                forall|j: int| 0 <= j < i ==> self.files@[j].name@ != name@,
            decreases self.files@.len() - i,
        {
            if self.files[i].name == name {
                return Some(&self.files[i]);
            }
            i = i + 1;
        }
        None
    }
}

} // verus!
