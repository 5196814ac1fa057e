//! An in-memory model of the external collaborators the package pipeline
//! drives: the per-distribution package handler, the file downloader, the
//! file copier, and the command runner.  The model records every call in
//! order and returns scripted answers, so that the pipeline's decisions are
//! verified for every answer the real collaborators could give; a runner
//! outside the library performs the same calls against the real services.
//!
//! The model names a fetched file by the url it came from, so the copy log
//! shows which download was staged where.

use vstd::prelude::*;

use crate::packages::{HandlerKind, Package};

verus! {

/// One recorded command invocation: the argument vector and the working
/// directory inside the build root.
pub struct CommandRecord {
    pub argv: Vec<Vec<u8>>,
    pub workdir: Vec<u8>,
}

/// The words of an argument vector.
pub open spec fn argv_view(v: Vec<Vec<u8>>) -> Seq<Seq<u8>> {
    Seq::new(v@.len(), |i: int| v@[i]@)
}

/// The modeled collaborators: one scripted handler answer, and the logs of
/// every call made so far.
pub struct CollabModel {
    handler_script: Vec<Package>,
    handler_calls: Vec<(HandlerKind, Vec<Package>)>,
    downloads: Vec<Vec<u8>>,
    copies: Vec<(Vec<u8>, Vec<u8>)>,
    commands: Vec<CommandRecord>,
}

impl CollabModel {
    /// The remainder the modeled distribution handler answers with.
    pub closed spec fn script_s(self) -> Seq<Package> {
        self.handler_script@
    }

    /// Every handler invocation so far: which handler, on which list.
    pub closed spec fn handler_calls_s(self) -> Seq<(HandlerKind, Seq<Package>)> {
        Seq::new(self.handler_calls@.len(), |i: int| (self.handler_calls@[i].0, self.handler_calls@[i].1@))
    }

    /// Every url downloaded so far, in order.
    pub closed spec fn downloads_s(self) -> Seq<Seq<u8>> {
        Seq::new(self.downloads@.len(), |i: int| self.downloads@[i]@)
    }

    /// Every file copy so far, as (fetched file, destination).
    pub closed spec fn copies_s(self) -> Seq<(Seq<u8>, Seq<u8>)> {
        Seq::new(self.copies@.len(), |i: int| (self.copies@[i].0@, self.copies@[i].1@))
    }

    /// Every command run so far, as (argument vector, working directory).
    pub closed spec fn commands_s(self) -> Seq<(Seq<Seq<u8>>, Seq<u8>)> {
        Seq::new(self.commands@.len(), |i: int| (argv_view(self.commands@[i].argv), self.commands@[i].workdir@))
    }

    /// A fresh model whose handler will answer with `handler_script`.
    pub fn new(handler_script: Vec<Package>) -> (r: CollabModel)
        ensures
            r.script_s() == handler_script@,
            r.handler_calls_s().len() == 0,
            r.downloads_s().len() == 0,
            r.copies_s().len() == 0,
            r.commands_s().len() == 0,
    {
        CollabModel {
            handler_script,
            handler_calls: Vec::new(),
            downloads: Vec::new(),
            copies: Vec::new(),
            commands: Vec::new(),
        }
    }

    /// Invoke the distribution handler on the requested list: the call is
    /// recorded and the scripted remainder comes back.
    pub fn run_handler(&mut self, kind: HandlerKind, requested: &Vec<Package>) -> (r: Vec<
        Package,
    >)
        ensures
            r@ == old(self).script_s(),
            final(self).script_s() == old(self).script_s(),
            final(self).handler_calls_s() == old(self).handler_calls_s().push(
                (kind, requested@),
            ),
            final(self).downloads_s() == old(self).downloads_s(),
            final(self).copies_s() == old(self).copies_s(),
            final(self).commands_s() == old(self).commands_s(),
    {
        self.handler_calls.push((kind, clone_packages(requested)));
        proof {
            assert(final(self).handler_calls_s() =~= old(self).handler_calls_s().push(
                (kind, requested@),
            ));
            assert(final(self).downloads_s() =~= old(self).downloads_s());
            assert(final(self).copies_s() =~= old(self).copies_s());
            assert(final(self).commands_s() =~= old(self).commands_s());
        }
        clone_packages(&self.handler_script)
    }

    /// Download the file at `url`: the call is recorded, and the model names
    /// the fetched file by its url.
    pub fn download_file(&mut self, url: Vec<u8>) -> (r: Vec<u8>)
        ensures
            r@ == url@,
            final(self).downloads_s() == old(self).downloads_s().push(url@),
            final(self).script_s() == old(self).script_s(),
            final(self).handler_calls_s() == old(self).handler_calls_s(),
            final(self).copies_s() == old(self).copies_s(),
            final(self).commands_s() == old(self).commands_s(),
    {
        self.downloads.push(url.clone());
        proof {
            assert(final(self).downloads_s() =~= old(self).downloads_s().push(url@));
            assert(final(self).handler_calls_s() =~= old(self).handler_calls_s());
            assert(final(self).copies_s() =~= old(self).copies_s());
            assert(final(self).commands_s() =~= old(self).commands_s());
        }
        url
    }

    /// Copy the fetched file `from` to the path `to`: the call is recorded.
    pub fn copy_file(&mut self, from: Vec<u8>, to: Vec<u8>)
        ensures
            final(self).copies_s() == old(self).copies_s().push((from@, to@)),
            final(self).script_s() == old(self).script_s(),
            final(self).handler_calls_s() == old(self).handler_calls_s(),
            final(self).downloads_s() == old(self).downloads_s(),
            final(self).commands_s() == old(self).commands_s(),
    {
        let ghost fv = from@;
        let ghost tv = to@;
        self.copies.push((from, to));
        proof {
            assert(final(self).copies_s() =~= old(self).copies_s().push((fv, tv)));
            assert(final(self).handler_calls_s() =~= old(self).handler_calls_s());
            assert(final(self).downloads_s() =~= old(self).downloads_s());
            assert(final(self).commands_s() =~= old(self).commands_s());
        }
    }

    /// Run a command with the given argument vector in the given working
    /// directory inside the build root: the call is recorded.
    pub fn run_command(&mut self, argv: Vec<Vec<u8>>, workdir: Vec<u8>)
        ensures
            final(self).commands_s() == old(self).commands_s().push((argv_view(argv), workdir@)),
            final(self).script_s() == old(self).script_s(),
            final(self).handler_calls_s() == old(self).handler_calls_s(),
            final(self).downloads_s() == old(self).downloads_s(),
            final(self).copies_s() == old(self).copies_s(),
    {
        let ghost av = argv_view(argv);
        let ghost wv = workdir@;
        self.commands.push(CommandRecord { argv, workdir });
        proof {
            assert(final(self).commands_s() =~= old(self).commands_s().push((av, wv)));
            assert(final(self).handler_calls_s() =~= old(self).handler_calls_s());
            assert(final(self).downloads_s() =~= old(self).downloads_s());
            assert(final(self).copies_s() =~= old(self).copies_s());
        }
    }

    /// How many downloads were performed.
    pub fn download_count(&self) -> (n: usize)
        ensures
            n == self.downloads_s().len(),
    {
        self.downloads.len()
    }

    /// The `i`-th downloaded url.
    pub fn download_at(&self, i: usize) -> (r: &Vec<u8>)
        requires
            i < self.downloads_s().len(),
        ensures
            r@ == self.downloads_s()[i as int],
    {
        &self.downloads[i]
    }

    /// How many handler invocations were performed.
    pub fn handler_call_count(&self) -> (n: usize)
        ensures
            n == self.handler_calls_s().len(),
    {
        self.handler_calls.len()
    }

    /// The `i`-th handler invocation.
    pub fn handler_call_at(&self, i: usize) -> (r: &(HandlerKind, Vec<Package>))
        requires
            i < self.handler_calls_s().len(),
        ensures
            r.0 == self.handler_calls_s()[i as int].0,
            r.1@ == self.handler_calls_s()[i as int].1,
    {
        &self.handler_calls[i]
    }

    /// How many file copies were performed.
    pub fn copy_count(&self) -> (n: usize)
        ensures
            n == self.copies_s().len(),
    {
        self.copies.len()
    }

    /// The `i`-th file copy.
    pub fn copy_at(&self, i: usize) -> (r: &(Vec<u8>, Vec<u8>))
        requires
            i < self.copies_s().len(),
        ensures
            r.0@ == self.copies_s()[i as int].0,
            r.1@ == self.copies_s()[i as int].1,
    {
        &self.copies[i]
    }

    /// How many commands were run.
    pub fn command_count(&self) -> (n: usize)
        ensures
            n == self.commands_s().len(),
    {
        self.commands.len()
    }

    /// The `i`-th command run.
    pub fn command_at(&self, i: usize) -> (r: &CommandRecord)
        requires
            i < self.commands_s().len(),
        ensures
            argv_view(r.argv) == self.commands_s()[i as int].0,
            r.workdir@ == self.commands_s()[i as int].1,
    {
        &self.commands[i]
    }
}

/// A fresh copy of a package list.
pub fn clone_packages(v: &Vec<Package>) -> (r: Vec<Package>)
    ensures
        r@ == v@,
{
    let mut r: Vec<Package> = Vec::new();
    let mut i: usize = 0;
    while i < v.len()
        invariant
            i <= v.len(),
            r@ =~= v@.take(i as int),
        decreases v.len() - i,
    {
        r.push(v[i]);
        proof {
            assert(r@ =~= v@.take(i + 1));
        }
        i = i + 1;
    }
    proof {
        assert(v@.take(v@.len() as int) =~= v@);
    }
    r
}

} // verus!
