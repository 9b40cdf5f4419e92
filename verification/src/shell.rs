//! The commands of the tool, and the shell functions that hook it into a
//! shell.

use vstd::prelude::*;

verus! {

/// The shells that the tool can be hooked into.
#[derive(Debug, Clone, Copy)]
pub enum ShellType {
    Bash,
    Zsh,
    Fish,
}

/// What the tool can be asked to do.
#[derive(Debug, Clone)]
#[allow(inconsistent_fields)]
pub enum Action {
    /// Complete `input` to a directory: `confidence` is the threshold that a
    /// match has to exceed, in units of `1 / SCALE`; `list` the number of
    /// matches asked for, where more than the best one is wanted.
    Complete { input: String, confidence: u64, list: Option<usize> },
    /// Forget a path, or the current directory where none is given.
    Forget { input: Option<String> },
    /// Print the shell functions for `shell`.
    Init { shell: ShellType },
}

/// The threshold that a match has to exceed where none is given: `0.4`.
pub const DEFAULT_CONFIDENCE: u64 = 400_000_000_000_000_000;

/// The functions `wd` and `cd` for shells of the Bourne family.
pub const POSIX_FUNCTIONS: &'static str = r#"function wd () {
  local target
  target=$("${WDBIN:-"wdbin"}" complete "$@")
  if [ $? -eq 0 ]; then
    builtin cd "$target"
  fi
}

function cd() {
  # Handle special cases first
  if [ $# -eq 0 ]; then
    # cd with no arguments goes to HOME
    builtin cd "$HOME"
  elif [ "$1" = "-" ]; then
    # cd - goes to previous directory
    builtin cd -
  elif [ "$1" = "~" ]; then
    # cd ~ goes to HOME
    builtin cd "$HOME"
  else
    # Use wd for all other cases
    wd "$@"
  fi
}"#;

/// The functions `wd` and `cd` for fish.
pub const FISH_FUNCTIONS: &'static str = r#"# Add these functions to your Fish config (~/.config/fish/config.fish)
# or run: wdbin init fish >> ~/.config/fish/config.fish

function wd
  set target (wdbin complete $argv)

  if test "$status" -eq 0
    builtin cd "$target"
  end
end

function cd --description 'Change directory'
    set -l MAX_DIR_HIST 25

    if test (count $argv) -gt 1
        printf "%s\n" (_ "Too many args for cd command")
        return 1
    end

    # Skip history in subshells.
    if status --is-command-substitution
        builtin cd $argv
        return $status
    end

    # Avoid set completions.
    set -l previous $PWD

    if test "$argv" = "-"
        if test "$__fish_cd_direction" = "next"
            nextd
        else
            prevd
        end
        return $status
    end

    # allow explicit "cd ." if the mount-point became stale in the meantime
    if test "$argv" = "."
        cd "$PWD"
        return $status
    end

    if test (count $argv) -eq 0
      cd $HOME
      return $status
    end

    wd $argv
    set -l cd_status $status

    if test $cd_status -eq 0 -a "$PWD" != "$previous"
        set -q dirprev
        or set -l dirprev
        set -q dirprev[$MAX_DIR_HIST]
        and set -e dirprev[1]

        # If dirprev, dirnext, __fish_cd_direction
        # are set as universal variables, honor their scope.

        set -U -q dirprev
        and set -U -a dirprev $previous
        or set -g -a dirprev $previous

        set -U -q dirnext
        and set -U -e dirnext
        or set -e dirnext

        set -U -q __fish_cd_direction
        and set -U __fish_cd_direction prev
        or set -g __fish_cd_direction prev
    end

    return $cd_status
end"#;

/// The text that sets a shell up: bash and zsh share one, fish has its own.
pub open spec fn functions_for(shell: ShellType) -> Seq<char> {
    match shell {
        ShellType::Bash | ShellType::Zsh => POSIX_FUNCTIONS@,
        ShellType::Fish => FISH_FUNCTIONS@,
    }
}

/// The shell functions to print for `shell`.
pub fn init(shell: &ShellType) -> (functions: &'static str)
    ensures
        functions@ == functions_for(*shell),
{
    match shell {
        ShellType::Bash | ShellType::Zsh => POSIX_FUNCTIONS,
        ShellType::Fish => FISH_FUNCTIONS,
    }
}

} // verus!
