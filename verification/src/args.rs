//! The command line, once it is parsed: which operation it asks for.

use crate::archive::ArchiveType;
use vstd::prelude::*;

verus! {

/// The flags and the positional arguments of the command line.
pub struct Arguments {
    /// Extract an archive.
    pub extract: bool,
    /// Create an archive.
    pub create: bool,
    /// Create a PAK archive.
    pub pak: bool,
    /// Create a KUB archive.
    pub kub: bool,
    /// The positional arguments.
    pub files: Vec<String>,
}

/// What the command line asks for.
#[derive(Debug, PartialEq, Eq)]
pub enum Command {
    /// Extract `archive` into the directory `out_dir`.
    Extract { archive: String, out_dir: String },
    /// Create `archive`, of type `ty`, from the files `inputs`.
    Create { archive: String, ty: ArchiveType, inputs: Vec<String> },
}

/// A command line that asks for nothing that can be done.
#[derive(Clone, Copy, Debug, PartialEq, Eq, Structural)]
pub enum ArgumentError {
    /// Both `--extract` and `--create` are set.
    BothOperations,
    /// Extracting takes an archive and, at most, an output directory.
    ExtractArguments,
    /// Creating takes an output path and one input file or more.
    CreateArguments,
}

/// The command line, as mathematics.
pub struct ArgumentsView {
    pub extract: bool,
    pub create: bool,
    pub pak: bool,
    pub kub: bool,
    pub files: Seq<Seq<char>>,
}

/// A command, as mathematics.
pub enum CommandView {
    Extract { archive: Seq<char>, out_dir: Seq<char> },
    Create { archive: Seq<char>, ty: ArchiveType, inputs: Seq<Seq<char>> },
}

/// The views of `names`, in order.
pub open spec fn names_view(names: Seq<String>) -> Seq<Seq<char>> {
    Seq::new(names.len(), |i: int| names[i]@)
}

impl View for Arguments {
    type V = ArgumentsView;

    open spec fn view(&self) -> ArgumentsView {
        ArgumentsView {
            extract: self.extract,
            create: self.create,
            pak: self.pak,
            kub: self.kub,
            files: names_view(self.files@),
        }
    }
}

impl View for Command {
    type V = CommandView;

    open spec fn view(&self) -> CommandView {
        match self {
            Command::Extract { archive, out_dir } => CommandView::Extract {
                archive: archive@,
                out_dir: out_dir@,
            },
            Command::Create { archive, ty, inputs } => CommandView::Create {
                archive: archive@,
                ty: *ty,
                inputs: names_view(inputs@),
            },
        }
    }
}

/// The directory into which an archive is extracted where none is named.
pub open spec fn default_out_dir() -> Seq<char> {
    seq!['.']
}

/// The type of the archive to create: KUB where `--kub` is set, else PAK.
pub open spec fn created_type(kub: bool) -> ArchiveType {
    if kub {
        ArchiveType::Kub
    } else {
        ArchiveType::Pak
    }
}

/// What a command line asks for. Both operations at once are refused.
/// `--create` takes the output path and then one input file or more.
/// Without it the archive is extracted: the first argument names it, and
/// the second, if there is one, the output directory.
pub open spec fn command_of(a: ArgumentsView) -> Result<CommandView, ArgumentError> {
    if a.create && a.extract {
        Err(ArgumentError::BothOperations)
    } else if a.create {
        if a.files.len() < 2 {
            Err(ArgumentError::CreateArguments)
        } else {
            Ok(
                CommandView::Create {
                    archive: a.files[0],
                    ty: created_type(a.kub),
                    inputs: a.files.subrange(1, a.files.len() as int),
                },
            )
        }
    } else if a.files.len() == 0 || a.files.len() > 2 {
        Err(ArgumentError::ExtractArguments)
    } else {
        Ok(
            CommandView::Extract {
                archive: a.files[0],
                out_dir: if a.files.len() == 2 {
                    a.files[1]
                } else {
                    default_out_dir()
                },
            },
        )
    }
}

impl Arguments {
    /// The operation that the command line asks for, or why there is none.
    pub fn command(&self) -> (r: Result<Command, ArgumentError>)
        ensures
            match command_of(self@) {
                Ok(c) => r matches Ok(got) && got@ == c,
                Err(e) => r matches Err(x) && x == e,
            },
    {
        let n = self.files.len();
        if self.create && self.extract {
            Err(ArgumentError::BothOperations)
        } else if self.create {
            if n < 2 {
                return Err(ArgumentError::CreateArguments);
            }
            let ty = if self.kub {
                ArchiveType::Kub
            } else {
                ArchiveType::Pak
            };
            let mut inputs: Vec<String> = Vec::new();
            let mut i: usize = 1;
            while i < n
                invariant
                    1 <= i <= n,
                    n == self.files@.len(),
                    inputs@.len() == i - 1,
                    names_view(inputs@) == names_view(self.files@).subrange(1, i as int),
                decreases n - i,
            {
                let ghost before = inputs@;
                inputs.push(self.files[i].clone());
                assert forall|j: int| 0 <= j < inputs@.len() implies names_view(inputs@)[j]
                    == names_view(self.files@).subrange(1, i + 1)[j] by {
                    if j < before.len() {
                        assert(names_view(before)[j] == names_view(self.files@).subrange(
                            1,
                            i as int,
                        )[j]);
                    }
                }
                assert(names_view(inputs@) =~= names_view(self.files@).subrange(1, i + 1));
                i += 1;
            }
            Ok(Command::Create { archive: self.files[0].clone(), ty, inputs })
        } else if n == 0 || n > 2 {
            Err(ArgumentError::ExtractArguments)
        } else {
            let out_dir = if n == 2 {
                self.files[1].clone()
            } else {
                proof {
                    reveal_strlit(".");
                }
                assert("."@ =~= default_out_dir());
                ".".to_owned()
            };
            Ok(Command::Extract { archive: self.files[0].clone(), out_dir })
        }
    }
}

} // verus!
