//! Line input for a shell: editing a line key by key, and cutting a line
//! into arguments.

use vstd::prelude::*;

verus! {

/// The words of `line` from `cur` on: the non-empty pieces between spaces.
pub open spec fn words_from(line: Seq<u8>, cur: Seq<u8>) -> Seq<Seq<u8>>
    decreases line.len(),
{
    let done: Seq<Seq<u8>> = if cur.len() == 0 {
        Seq::empty()
    } else {
        seq![cur]
    };
    if line.len() == 0 {
        done
    } else if line[0] == 32 {
        done.add(words_from(line.drop_first(), Seq::empty()))
    } else {
        words_from(line.drop_first(), cur.push(line[0]))
    }
}

/// The words of `line`.
pub open spec fn words(line: Seq<u8>) -> Seq<Seq<u8>> {
    words_from(line, Seq::empty())
}

/// The bytes that slices view.
pub open spec fn slices_view(v: Seq<&[u8]>) -> Seq<Seq<u8>> {
    Seq::new(v.len(), |i: int| v[i]@)
}

/// Cuts `line` into its words and stores them at the front of `argv`, as
/// many as it holds. The result is the number of words stored; the rest
/// of `argv` is left as it was.
pub fn parse_args<'a>(line: &'a [u8], argv: &mut [&'a [u8]]) -> (r: usize)
    ensures
        final(argv)@.len() == old(argv)@.len(),
        r == if words(line@).len() < old(argv)@.len() {
            words(line@).len()
        } else {
            old(argv)@.len()
        },
        forall|i: int| 0 <= i < r ==> (#[trigger] final(argv)@[i])@ == words(line@)[i],
        forall|i: int| r <= i < old(argv)@.len() ==> final(argv)@[i] == old(argv)@[i],
{
    let max: usize = argv.len();
    let found = first_words(line, max);
    let count: usize = found.len();
    let mut i: usize = 0;
    while i < count
        invariant
            i <= count,
            count == found@.len(),
            count <= max,
            max == argv@.len(),
            argv@.len() == old(argv)@.len(),
            forall|k: int| 0 <= k < i ==> (#[trigger] argv@[k]) == found@[k],
            forall|k: int| i <= k < max ==> argv@[k] == old(argv)@[k],
        decreases count - i,
    {
        argv[i] = found[i];
        i += 1;
    }
    count
}

/// Cuts `line` into its words, of which at most `max` are given.
pub fn first_words<'a>(line: &'a [u8], max: usize) -> (r: Vec<&'a [u8]>)
    ensures
        r@.len() == if words(line@).len() < max {
            words(line@).len()
        } else {
            max as nat
        },
        forall|i: int| 0 <= i < r@.len() ==> (#[trigger] r@[i])@ == words(line@)[i],
{
    let n: usize = line.len();
    let mut argv: Vec<&'a [u8]> = Vec::new();
    let mut i: usize = 0;
    let mut start: usize = 0;
    let ghost all = words(line@);
    proof {
        assert(line@.subrange(0, n as int) =~= line@);
        assert(slices_view(argv@) =~= Seq::<Seq<u8>>::empty());
        assert(Seq::<Seq<u8>>::empty().add(all) =~= all);
        assert(line@.subrange(0, 0) =~= Seq::<u8>::empty());
    }
    while i < n && argv.len() < max
        invariant
            start <= i <= n,
            n == line@.len(),
            all == words(line@),
            argv@.len() <= max,
            argv@.len() == max ==> slices_view(argv@) == all.subrange(0, max as int) && all.len()
                >= max,
            argv@.len() < max ==> slices_view(argv@).add(
                words_from(line@.subrange(i as int, n as int), line@.subrange(start as int, i as int)),
            ) == all,
        decreases n - i,
    {
        let ghost rest = line@.subrange(i as int, n as int);
        let ghost cur = line@.subrange(start as int, i as int);
        let ghost before = slices_view(argv@);
        proof {
            assert(rest[0] == line@[i as int]);
            assert(rest.drop_first() =~= line@.subrange(i + 1, n as int));
        }
        if line[i] == 32 {
            if i > start {
                argv.push(&line[start..i]);
                proof {
                    let tail = words_from(rest.drop_first(), Seq::empty());
                    assert(slices_view(argv@) =~= before.push(cur));
                    assert(before.push(cur).add(tail) =~= before.add(seq![cur].add(tail)));
                    if argv@.len() == max {
                        assert(all.subrange(0, max as int) =~= slices_view(argv@));
                    }
                }
            } else {
                proof {
                    let tail = words_from(rest.drop_first(), Seq::empty());
                    assert(cur =~= Seq::<u8>::empty());
                    assert(Seq::<Seq<u8>>::empty().add(tail) =~= tail);
                }
            }
            start = i + 1;
            proof {
                assert(line@.subrange(i + 1, i + 1) =~= Seq::<u8>::empty());
            }
        } else {
            proof {
                assert(cur.push(line@[i as int]) =~= line@.subrange(start as int, i + 1));
            }
        }
        i += 1;
    }
    if argv.len() < max && i == n && n > start {
        let ghost before = slices_view(argv@);
        let ghost cur = line@.subrange(start as int, n as int);
        argv.push(&line[start..n]);
        proof {
            assert(line@.subrange(n as int, n as int) =~= Seq::<u8>::empty());
            assert(slices_view(argv@) =~= before.push(cur));
            assert(before.push(cur) =~= before.add(seq![cur]));
        }
    } else {
        proof {
            if argv@.len() < max {
                assert(i == n);
                assert(line@.subrange(n as int, n as int) =~= Seq::<u8>::empty());
                assert(line@.subrange(start as int, n as int) =~= Seq::<u8>::empty());
                assert(slices_view(argv@).add(Seq::<Seq<u8>>::empty()) =~= slices_view(argv@));
            }
        }
    }
    proof {
        if argv@.len() == max {
            assert(all.len() >= max);
        } else {
            assert(slices_view(argv@) == all);
        }
        assert forall|k: int| 0 <= k < argv@.len() implies (#[trigger] argv@[k])@ == all[k] by {
            assert(slices_view(argv@)[k] == argv@[k]@);
        }
    }
    argv
}

/// What a key does to a line that is being typed.
pub struct KeyAction {
    /// The bytes to show on the terminal.
    pub echo: Vec<u8>,
    /// Whether the line is complete.
    pub done: bool,
}

/// The line after the key `c`, for a buffer of `capacity` bytes: a
/// backspace or delete takes the last character back, a printable
/// character is added while the buffer has room for it and one more byte,
/// and any other key leaves the line as it is.
pub open spec fn line_after(line: Seq<u8>, capacity: int, c: u8) -> Seq<u8> {
    if c == 8 || c == 127 {
        if line.len() > 0 {
            line.drop_last()
        } else {
            line
        }
    } else if 32 <= c <= 126 && line.len() + 1 < capacity {
        line.push(c)
    } else {
        line
    }
}

/// What is shown for the key `c`: a line feed for a line feed, a step
/// back over a blank for a character taken back, the character itself
/// when it is added, and nothing otherwise.
pub open spec fn echo_of(line: Seq<u8>, capacity: int, c: u8) -> Seq<u8> {
    if c == 10 {
        seq![10u8]
    } else if c == 8 || c == 127 {
        if line.len() > 0 {
            seq![8u8, 32u8, 8u8]
        } else {
            Seq::empty()
        }
    } else if 32 <= c <= 126 && line.len() + 1 < capacity {
        seq![c]
    } else {
        Seq::empty()
    }
}

/// Takes the key `c` into the line that is being typed.
pub fn edit_line(line: &mut Vec<u8>, capacity: usize, c: u8) -> (r: KeyAction)
    ensures
        r.done == (c == 10),
        r.echo@ == echo_of(old(line)@, capacity as int, c),
        final(line)@ == if c == 10 {
            old(line)@
        } else {
            line_after(old(line)@, capacity as int, c)
        },
{
    let mut echo: Vec<u8> = Vec::new();
    if c == 10 {
        echo.push(10);
        assert(echo@ =~= seq![10u8]);
        return KeyAction { echo, done: true };
    }
    if c == 8 || c == 127 {
        if line.len() > 0 {
            line.pop();
            echo.push(8);
            echo.push(32);
            echo.push(8);
            assert(echo@ =~= seq![8u8, 32u8, 8u8]);
        }
    } else if 32 <= c && c <= 126 {
        if capacity > 0 && line.len() < capacity - 1 {
            line.push(c);
            echo.push(c);
            assert(echo@ =~= seq![c]);
        }
    }
    KeyAction { echo, done: false }
}

/// The bytes of `/live/tasks/`.
pub open spec fn tasks_prefix() -> Seq<u8> {
    seq![47u8, 108u8, 105u8, 118u8, 101u8, 47u8, 116u8, 97u8, 115u8, 107u8, 115u8, 47u8]
}

/// The bytes of `/status`.
pub open spec fn status_suffix() -> Seq<u8> {
    seq![47u8, 115u8, 116u8, 97u8, 116u8, 117u8, 115u8]
}

/// Builds the path of the status file of the task whose number is
/// written `pid`.
pub fn build_path(pid: &[u8]) -> (r: Vec<u8>)
    ensures
        r@ == tasks_prefix().add(pid@).add(status_suffix()),
{
    let prefix: [u8; 12] = [47, 108, 105, 118, 101, 47, 116, 97, 115, 107, 115, 47];
    let suffix: [u8; 7] = [47, 115, 116, 97, 116, 117, 115];
    let mut out: Vec<u8> = Vec::new();
    out.extend_from_slice(prefix.as_slice());
    out.extend_from_slice(pid);
    out.extend_from_slice(suffix.as_slice());
    proof {
        assert(prefix@ =~= tasks_prefix());
        assert(suffix@ =~= status_suffix());
        assert(out@ =~= tasks_prefix().add(pid@).add(status_suffix()));
    }
    out
}

/// The lines of `text` from `cur` on: the pieces between line feeds. A
/// line feed at the very end begins no further line.
pub open spec fn lines_from(text: Seq<u8>, cur: Seq<u8>) -> Seq<Seq<u8>>
    decreases text.len(),
{
    if text.len() == 0 {
        if cur.len() == 0 {
            Seq::empty()
        } else {
            seq![cur]
        }
    } else if text[0] == 10 {
        seq![cur].add(lines_from(text.drop_first(), Seq::empty()))
    } else {
        lines_from(text.drop_first(), cur.push(text[0]))
    }
}

/// The lines of `text`.
pub open spec fn lines(text: Seq<u8>) -> Seq<Seq<u8>> {
    lines_from(text, Seq::empty())
}

/// Whether `line` begins with `key`.
pub open spec fn begins_with(line: Seq<u8>, key: Seq<u8>) -> bool {
    key.len() <= line.len() && line.subrange(0, key.len() as int) == key
}

/// What the lines `all` say of `key`: what follows the key on the last
/// line that begins with it, and `?` when no line does.
pub open spec fn value_of(all: Seq<Seq<u8>>, key: Seq<u8>) -> Seq<u8>
    decreases all.len(),
{
    if all.len() == 0 {
        seq![63u8]
    } else if begins_with(all.last(), key) {
        all.last().subrange(key.len() as int, all.last().len() as int)
    } else {
        value_of(all.drop_last(), key)
    }
}

/// The bytes `pid: `.
pub open spec fn pid_key() -> Seq<u8> {
    seq![112u8, 105u8, 100u8, 58u8, 32u8]
}

/// The bytes `state: `.
pub open spec fn state_key() -> Seq<u8> {
    seq![115u8, 116u8, 97u8, 116u8, 101u8, 58u8, 32u8]
}

/// The bytes `mode: `.
pub open spec fn mode_key() -> Seq<u8> {
    seq![109u8, 111u8, 100u8, 101u8, 58u8, 32u8]
}

/// The line that a status file is shown as: the number of the task, a
/// tab, its state, two tabs, its mode, and a line feed.
pub open spec fn summary(status: Seq<u8>) -> Seq<u8> {
    let all = lines(status);
    value_of(all, pid_key()).push(9).add(value_of(all, state_key())).push(9).push(9).add(
        value_of(all, mode_key()),
    ).push(10)
}

/// What follows `key` in `line`, when `line` begins with `key`.
fn after_key(line: &[u8], key: &[u8]) -> (r: Option<Vec<u8>>)
    ensures
        r is Some <==> begins_with(line@, key@),
        r matches Some(v) ==> v@ == line@.subrange(key@.len() as int, line@.len() as int),
{
    let n: usize = line.len();
    let k: usize = key.len();
    if k > n {
        return None;
    }
    let mut i: usize = 0;
    while i < k
        invariant
            i <= k <= n,
            n == line@.len(),
            k == key@.len(),
            forall|j: int| 0 <= j < i ==> line@[j] == key@[j],
        decreases k - i,
    {
        if line[i] != key[i] {
            proof {
                assert(line@.subrange(0, k as int)[i as int] == line@[i as int]);
            }
            return None;
        }
        i += 1;
    }
    assert(line@.subrange(0, k as int) =~= key@);
    let mut out: Vec<u8> = Vec::new();
    let mut j: usize = k;
    while j < n
        invariant
            k <= j <= n,
            n == line@.len(),
            out@ == line@.subrange(k as int, j as int),
        decreases n - j,
    {
        out.push(line[j]);
        proof {
            assert(out@ =~= line@.subrange(k as int, j + 1));
        }
        j += 1;
    }
    Some(out)
}

/// The values of a status file so far.
struct Fields {
    pid: Vec<u8>,
    state: Vec<u8>,
    mode: Vec<u8>,
}

impl Fields {
    /// Whether the values are what the lines `all` say.
    spec fn of(&self, all: Seq<Seq<u8>>) -> bool {
        &&& self.pid@ == value_of(all, pid_key())
        &&& self.state@ == value_of(all, state_key())
        &&& self.mode@ == value_of(all, mode_key())
    }

    /// Takes what `line` says into the values.
    fn take(&mut self, line: &[u8], Ghost(all): Ghost<Seq<Seq<u8>>>)
        requires
            old(self).of(all),
        ensures
            final(self).of(all.push(line@)),
    {
        let for_pid: [u8; 5] = [112, 105, 100, 58, 32];
        let for_state: [u8; 7] = [115, 116, 97, 116, 101, 58, 32];
        let for_mode: [u8; 6] = [109, 111, 100, 101, 58, 32];
        proof {
            assert(for_pid@ =~= pid_key());
            assert(for_state@ =~= state_key());
            assert(for_mode@ =~= mode_key());
            assert(all.push(line@).drop_last() =~= all);
            assert(all.push(line@).last() == line@);
        }
        match after_key(line, for_pid.as_slice()) {
            Some(v) => {
                self.pid = v;
            },
            None => {},
        }
        match after_key(line, for_state.as_slice()) {
            Some(v) => {
                self.state = v;
            },
            None => {},
        }
        match after_key(line, for_mode.as_slice()) {
            Some(v) => {
                self.mode = v;
            },
            None => {},
        }
    }
}

/// Makes of the text of a status file the line it is shown as.
pub fn status_summary(status: &[u8]) -> (r: Vec<u8>)
    ensures
        r@ == summary(status@),
{
    let n: usize = status.len();
    let mut fields = Fields { pid: vec![63u8], state: vec![63u8], mode: vec![63u8] };
    let mut cur: Vec<u8> = Vec::new();
    let ghost mut done: Seq<Seq<u8>> = Seq::empty();
    let mut i: usize = 0;
    proof {
        assert(fields.pid@ =~= seq![63u8]);
        assert(fields.state@ =~= seq![63u8]);
        assert(fields.mode@ =~= seq![63u8]);
        assert(status@.subrange(0, n as int) =~= status@);
        assert(done.add(lines(status@)) =~= lines(status@));
    }
    while i < n
        invariant
            i <= n,
            n == status@.len(),
            fields.of(done),
            done.add(lines_from(status@.subrange(i as int, n as int), cur@)) == lines(status@),
        decreases n - i,
    {
        let ghost rest = status@.subrange(i as int, n as int);
        proof {
            assert(rest[0] == status@[i as int]);
            assert(rest.drop_first() =~= status@.subrange(i + 1, n as int));
        }
        if status[i] == 10 {
            fields.take(cur.as_slice(), Ghost(done));
            proof {
                let tail = lines_from(rest.drop_first(), Seq::empty());
                assert(done.push(cur@).add(tail) =~= done.add(seq![cur@].add(tail)));
                done = done.push(cur@);
            }
            cur = Vec::new();
        } else {
            cur.push(status[i]);
        }
        i += 1;
    }
    proof {
        assert(status@.subrange(n as int, n as int) =~= Seq::<u8>::empty());
    }
    if cur.len() > 0 {
        fields.take(cur.as_slice(), Ghost(done));
        proof {
            assert(done.push(cur@) =~= done.add(seq![cur@]));
        }
    } else {
        proof {
            assert(done.add(Seq::<Seq<u8>>::empty()) =~= done);
        }
    }
    let mut out: Vec<u8> = Vec::new();
    out.extend_from_slice(fields.pid.as_slice());
    out.push(9);
    out.extend_from_slice(fields.state.as_slice());
    out.push(9);
    out.push(9);
    out.extend_from_slice(fields.mode.as_slice());
    out.push(10);
    proof {
        assert(out@ =~= summary(status@));
    }
    out
}

/// The commands of the shell.
#[derive(Debug, Clone, Copy, PartialEq, Eq, Structural)]
pub enum Command {
    Help,
    Echo,
    Ls,
    Cat,
    Write,
    Cd,
    Pwd,
    Ps,
    Touch,
    Mkdir,
    Rm,
    Rmdir,
    Exit,
    /// A word that names no command.
    Unknown,
}

/// The command that a word names.
pub open spec fn command_named(word: Seq<u8>) -> Command {
    if word == seq![104u8, 101u8, 108u8, 112u8] {
        Command::Help
    } else if word == seq![101u8, 99u8, 104u8, 111u8] {
        Command::Echo
    } else if word == seq![108u8, 115u8] {
        Command::Ls
    } else if word == seq![99u8, 97u8, 116u8] {
        Command::Cat
    } else if word == seq![119u8, 114u8, 105u8, 116u8, 101u8] {
        Command::Write
    } else if word == seq![99u8, 100u8] {
        Command::Cd
    } else if word == seq![112u8, 119u8, 100u8] {
        Command::Pwd
    } else if word == seq![112u8, 115u8] {
        Command::Ps
    } else if word == seq![116u8, 111u8, 117u8, 99u8, 104u8] {
        Command::Touch
    } else if word == seq![109u8, 107u8, 100u8, 105u8, 114u8] {
        Command::Mkdir
    } else if word == seq![114u8, 109u8] {
        Command::Rm
    } else if word == seq![114u8, 109u8, 100u8, 105u8, 114u8] {
        Command::Rmdir
    } else if word == seq![101u8, 120u8, 105u8, 116u8] {
        Command::Exit
    } else {
        Command::Unknown
    }
}

/// Whether `word` is the bytes `name`.
fn is_word(word: &[u8], name: &[u8]) -> (r: bool)
    ensures
        r == (word@ == name@),
{
    let n: usize = word.len();
    if n != name.len() {
        return false;
    }
    let mut i: usize = 0;
    while i < n
        invariant
            i <= n,
            n == word@.len(),
            n == name@.len(),
            forall|j: int| 0 <= j < i ==> word@[j] == name@[j],
        decreases n - i,
    {
        if word[i] != name[i] {
            return false;
        }
        i += 1;
    }
    assert(word@ =~= name@);
    true
}

/// Finds the command that the first word of a line names.
pub fn command_of(word: &[u8]) -> (r: Command)
    ensures
        r == command_named(word@),
{
    let help: [u8; 4] = [104, 101, 108, 112];
    let echo: [u8; 4] = [101, 99, 104, 111];
    let ls: [u8; 2] = [108, 115];
    let cat: [u8; 3] = [99, 97, 116];
    let write: [u8; 5] = [119, 114, 105, 116, 101];
    let cd: [u8; 2] = [99, 100];
    let pwd: [u8; 3] = [112, 119, 100];
    let ps: [u8; 2] = [112, 115];
    let touch: [u8; 5] = [116, 111, 117, 99, 104];
    let mkdir: [u8; 5] = [109, 107, 100, 105, 114];
    let rm: [u8; 2] = [114, 109];
    let rmdir: [u8; 5] = [114, 109, 100, 105, 114];
    let exit: [u8; 4] = [101, 120, 105, 116];
    proof {
        assert(help@ =~= seq![104u8, 101u8, 108u8, 112u8]);
        assert(echo@ =~= seq![101u8, 99u8, 104u8, 111u8]);
        assert(ls@ =~= seq![108u8, 115u8]);
        assert(cat@ =~= seq![99u8, 97u8, 116u8]);
        assert(write@ =~= seq![119u8, 114u8, 105u8, 116u8, 101u8]);
        assert(cd@ =~= seq![99u8, 100u8]);
        assert(pwd@ =~= seq![112u8, 119u8, 100u8]);
        assert(ps@ =~= seq![112u8, 115u8]);
        assert(touch@ =~= seq![116u8, 111u8, 117u8, 99u8, 104u8]);
        assert(mkdir@ =~= seq![109u8, 107u8, 100u8, 105u8, 114u8]);
        assert(rm@ =~= seq![114u8, 109u8]);
        assert(rmdir@ =~= seq![114u8, 109u8, 100u8, 105u8, 114u8]);
        assert(exit@ =~= seq![101u8, 120u8, 105u8, 116u8]);
    }
    if is_word(word, help.as_slice()) {
        Command::Help
    } else if is_word(word, echo.as_slice()) {
        Command::Echo
    } else if is_word(word, ls.as_slice()) {
        Command::Ls
    } else if is_word(word, cat.as_slice()) {
        Command::Cat
    } else if is_word(word, write.as_slice()) {
        Command::Write
    } else if is_word(word, cd.as_slice()) {
        Command::Cd
    } else if is_word(word, pwd.as_slice()) {
        Command::Pwd
    } else if is_word(word, ps.as_slice()) {
        Command::Ps
    } else if is_word(word, touch.as_slice()) {
        Command::Touch
    } else if is_word(word, mkdir.as_slice()) {
        Command::Mkdir
    } else if is_word(word, rm.as_slice()) {
        Command::Rm
    } else if is_word(word, rmdir.as_slice()) {
        Command::Rmdir
    } else if is_word(word, exit.as_slice()) {
        Command::Exit
    } else {
        Command::Unknown
    }
}

} // verus!
