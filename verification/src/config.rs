//! The configuration: the install root, held in a text of lines
//! `key: value` of which only `install_dir` is read.

use crate::bytes::{
    copy_bytes, copy_range, has_prefix, lemma_span_end_at, same_bytes, starts_with, views,
};
use crate::path::{join, join_spec};
use crate::text::{
    ascii, ascii_bytes, lemma_space_end_bounds, lemma_space_start_bounds, lines, lines_from,
    lines_spec, NEWLINE, RETURN, space_before, space_end, space_start, trim, trimmed,
    without_return,
};
use vstd::prelude::*;
use vstd::string::*;

verus! {

/// The configuration of the package manager.
#[derive(Debug, PartialEq, Eq)]
pub struct Config {
    /// The install root: the directory under which packages are installed.
    pub install_dir: Vec<u8>,
}

/// A [`Config`] over byte sequences.
pub struct ConfigView {
    pub install_dir: Seq<u8>,
}

impl View for Config {
    type V = ConfigView;

    open spec fn view(&self) -> ConfigView {
        ConfigView { install_dir: self.install_dir@ }
    }
}

/// What a line that sets the install root begins with.
pub open spec fn setting_prefix() -> Seq<u8> {
    ascii("install_dir: "@)
}

/// The name of the setting that holds the install root.
pub open spec fn setting_name() -> Seq<u8> {
    ascii("install_dir"@)
}

/// The install root that a line sets: what follows `install_dir: `, without
/// the white space around it. `None` for any other line.
pub open spec fn setting_of(line: Seq<u8>) -> Option<Seq<u8>> {
    if has_prefix(line, setting_prefix()) {
        Some(trimmed(line.skip(setting_prefix().len() as int)))
    } else {
        None
    }
}

/// The install root after the first `k` of the lines, beginning with
/// `initial`: the last line that sets it decides.
pub open spec fn configured(lines: Seq<Seq<u8>>, k: int, initial: Seq<u8>) -> Seq<u8>
    decreases k,
{
    if k <= 0 {
        initial
    } else {
        match setting_of(lines[k - 1]) {
            Some(dir) => dir,
            None => configured(lines, k - 1, initial),
        }
    }
}

/// The install root where nothing is configured: `.local` in the home
/// directory.
pub open spec fn default_dir(home: Seq<u8>) -> Seq<u8> {
    join_spec(home, ascii(".local"@))
}

/// The install root that a configuration text gives; the default where
/// there is no text.
pub open spec fn loaded(text: Option<Seq<u8>>, home: Seq<u8>) -> Seq<u8> {
    match text {
        None => default_dir(home),
        Some(t) => configured(lines_spec(t), lines_spec(t).len() as int, default_dir(home)),
    }
}

/// The text that holds a configuration.
pub open spec fn config_text(install_dir: Seq<u8>) -> Seq<u8> {
    (setting_prefix() + install_dir).push(NEWLINE)
}

/// A text that is left as it is when trimmed does not end with a carriage
/// return.
proof fn lemma_trimmed_has_no_return(s: Seq<u8>)
    requires
        trimmed(s) == s,
        s.len() > 0,
    ensures
        s.last() != RETURN,
{
    let from = space_end(s, 0);
    let to = space_start(s, from, s.len() as int);
    lemma_space_end_bounds(s, 0);
    lemma_space_start_bounds(s, from, s.len() as int);
    assert(s.subrange(from, to).len() == to - from);
    if s.last() == RETURN {
        assert(from == 0 && to == s.len());
        assert(space_before(s, 0, s.len() as int) == 1);
        lemma_space_start_bounds(s, 0, s.len() - 1);
    }
}

/// A configuration is read back from the text that holds it, where its
/// install root is left as it is when trimmed and holds no newline.
pub proof fn lemma_config_round_trip(install_dir: Seq<u8>, home: Seq<u8>)
    requires
        trimmed(install_dir) == install_dir,
        forall|k: int| 0 <= k < install_dir.len() ==> install_dir[k] != NEWLINE,
    ensures
        loaded(Some(config_text(install_dir)), home) == install_dir,
{
    reveal_strlit("install_dir: ");
    let prefix = setting_prefix();
    let line = prefix + install_dir;
    let text = config_text(install_dir);
    let end = line.len() as int;
    assert(text.len() == end + 1);
    assert forall|k: int| 0 <= k < end implies text[k] != NEWLINE by {
        if k >= prefix.len() {
            assert(text[k] == install_dir[k - prefix.len()]);
        }
    }
    lemma_span_end_at(text, 0, end, NEWLINE);
    assert(text.subrange(0, end) =~= line);
    assert(without_return(line) == line) by {
        if install_dir.len() > 0 {
            lemma_trimmed_has_no_return(install_dir);
            assert(line.last() == install_dir.last());
        } else {
            assert(line.last() == prefix[12]);
        }
    }
    assert(lines_from(text, end + 1) =~= Seq::<Seq<u8>>::empty());
    assert(lines_spec(text) =~= seq![line]);
    assert(line.take(prefix.len() as int) =~= prefix);
    assert(line.skip(prefix.len() as int) =~= install_dir);
    assert(configured(lines_spec(text), 0, default_dir(home)) == default_dir(home));
}

impl Config {
    /// The configuration of a user who has configured nothing.
    pub fn default_for(home: &[u8]) -> (c: Config)
        ensures
            c@.install_dir == default_dir(home@),
    {
        proof {
            reveal_strlit(".local");
        }
        Config { install_dir: join(home, ascii_bytes(".local")) }
    }

    /// Reads a configuration. `text` is what the configuration file holds, or
    /// `None` where it could not be read; `home` is the home directory, which
    /// decides the default.
    pub fn load(text: Option<&[u8]>, home: &[u8]) -> (c: Config)
        ensures
            c@.install_dir == loaded(
                match text {
                    Some(t) => Some(t@),
                    None => None,
                },
                home@,
            ),
    {
        let mut config = Config::default_for(home);
        let text = match text {
            Some(t) => t,
            None => {
                return config;
            },
        };
        proof {
            reveal_strlit("install_dir: ");
        }
        let prefix = ascii_bytes("install_dir: ");
        let all = lines(text);
        let mut k: usize = 0;
        while k < all.len()
            invariant
                k <= all.len(),
                views(all@) == lines_spec(text@),
                prefix@ == setting_prefix(),
                config@.install_dir == configured(lines_spec(text@), k as int, default_dir(home@)),
            decreases all.len() - k,
        {
            let line = all[k].as_slice();
            assert(views(all@)[k as int] == line@);
            if starts_with(line, prefix) {
                let value = copy_range(line, prefix.len(), line.len());
                assert(value@ =~= line@.skip(prefix.len() as int));
                config.install_dir = trim(value.as_slice());
            }
            k += 1;
        }
        config
    }

    /// The text that holds the configuration.
    pub fn render(&self) -> (text: Vec<u8>)
        ensures
            text@ == config_text(self@.install_dir),
    {
        proof {
            reveal_strlit("install_dir: ");
        }
        let mut text = copy_bytes(ascii_bytes("install_dir: "));
        let ghost head = text@;
        let mut i: usize = 0;
        while i < self.install_dir.len()
            invariant
                i <= self.install_dir.len(),
                text@ == head + self.install_dir@.take(i as int),
            decreases self.install_dir.len() - i,
        {
            text.push(self.install_dir[i]);
            assert(text@ =~= head + self.install_dir@.take(i + 1));
            i += 1;
        }
        assert(self.install_dir@.take(self.install_dir.len() as int) =~= self.install_dir@);
        text.push(NEWLINE);
        text
    }

    /// Changes the setting `name` to `value`, each taken without the white
    /// space around it. Only `install_dir` is a setting: for any other name
    /// the configuration stays as it is and the result is false.
    pub fn set(&mut self, name: &[u8], value: &[u8]) -> (known: bool)
        ensures
            known == (trimmed(name@) == setting_name()),
            final(self)@.install_dir == if known {
                trimmed(value@)
            } else {
                old(self)@.install_dir
            },
    {
        proof {
            reveal_strlit("install_dir");
        }
        let name = trim(name);
        if same_bytes(name.as_slice(), ascii_bytes("install_dir")) {
            self.install_dir = trim(value);
            true
        } else {
            false
        }
    }
}

} // verus!
