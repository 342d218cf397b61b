//! Scaffolding a repository: the default configuration and the workflow that tags releases.
use vstd::prelude::*;

verus! {

/// Where the configuration is.
pub const CONFIG_PATH: &'static str = "notch.toml";

/// Where workflows are.
pub const WORKFLOW_DIR: &'static str = ".github/workflows";

/// Where the workflow is.
pub const WORKFLOW_PATH: &'static str = ".github/workflows/notch_tag.yaml";

/// The workflow that tags the packages whose version changed in a push.
pub const WORKFLOW: &'static str = r#"name: Tag crate versions

on:
  push:
    branches: [master]
  workflow_call:
    inputs:
      version:
        required: false
        type: string
        default: latest
        description: >-
          cargo-notch version to install (e.g. v0.1.25). Defaults to
          latest, which floats on whatever release GitHub currently marks
          as latest — pin this once you depend on stable tagging behavior.
    secrets:
      release_pat:
        required: false
        description: >-
          PAT with contents:write on the calling repo. Pushes made with the
          default GITHUB_TOKEN don't trigger other workflow runs, so callers
          that want the pushed tag to fire their own tag-triggered workflows
          need to pass a PAT here. Falls back to GITHUB_TOKEN when omitted.

permissions:
  contents: write

jobs:
  tag-versions:
    runs-on: ubuntu-latest
    steps:
      - uses: actions/checkout@v7
        with:
          fetch-depth: 0
          token: ${{ secrets.release_pat || secrets.GITHUB_TOKEN }}

      - uses: dtolnay/rust-toolchain@stable

      - name: Cache cargo-notch binary
        id: notch-cache
        uses: actions/cache@v6
        with:
          path: ~/.cargo/bin/cargo-notch
          key: cargo-notch-${{ runner.os }}-${{ inputs.version }}-${{ github.sha }}

      - name: Install cargo-notch
        if: steps.notch-cache.outputs.cache-hit != 'true'
        shell: bash
        env:
          NOTCH_VERSION: ${{ inputs.version }}
        run: |
          if [ -z "$NOTCH_VERSION" ] || [ "$NOTCH_VERSION" = "latest" ]; then
            url="https://github.com/jdeinum/cargo-notch/releases/latest/download/cargo-notch-installer.sh"
          else
            url="https://github.com/jdeinum/cargo-notch/releases/download/$NOTCH_VERSION/cargo-notch-installer.sh"
          fi
          curl --proto '=https' --tlsv1.2 -LsSf "$url" | sh

      - name: Compute new tags
        run: |
          cargo notch tag \
            --old ${{ github.event.before }} \
            --new ${{ github.sha }} \
            > tags.txt
          echo "--- tags to create ---"
          cat tags.txt

      - name: Create and push tags
        run: |
          git config user.name "github-actions[bot]"
          git config user.email "github-actions[bot]@users.noreply.github.com"

          while IFS= read -r tag; do
            [ -z "$tag" ] && continue
            if git rev-parse -q --verify "refs/tags/$tag" >/dev/null; then
              echo "tag $tag already exists, skipping"
              continue
            fi
            git tag -a "$tag" -m "Release $tag" ${{ github.sha }}
            git push origin "refs/tags/$tag"
          done < tags.txt
"#;

/// A workflow to write.
#[derive(Debug, PartialEq, Eq)]
pub struct NotchAction {
    val: String,
}

impl View for NotchAction {
    type V = Seq<char>;

    closed spec fn view(&self) -> Seq<char> {
        self.val@
    }
}

impl Default for NotchAction {
    fn default() -> (r: Self)
        ensures
            r@ == WORKFLOW@,
    {
        NotchAction { val: WORKFLOW.to_owned() }
    }
}

/// A file to write, and the directory to create for it first.
#[derive(Debug, PartialEq, Eq)]
pub struct NewFile {
    pub directory: Option<String>,
    pub path: String,
    pub contents: String,
}

impl NotchAction {
    /// What to write for the workflow: nothing if there is a file in its place already.
    pub fn write_to_default_file(self, exists: bool) -> (r: Option<NewFile>)
        ensures
            match r {
                None => exists,
                Some(file) => {
                    &&& !exists
                    &&& file.directory matches Some(d) && d@ == WORKFLOW_DIR@
                    &&& file.path@ == WORKFLOW_PATH@
                    &&& file.contents@ == self@
                },
            },
    {
        if exists {
            return None;
        }
        Some(
            NewFile {
                directory: Some(WORKFLOW_DIR.to_owned()),
                path: WORKFLOW_PATH.to_owned(),
                contents: self.val,
            },
        )
    }
}

/// What to write: the default configuration, given as it is written, and the default workflow, each
/// only where there is no such file yet. So a second run changes nothing.
pub fn run(config: String, config_exists: bool, workflow_exists: bool) -> (r: Vec<NewFile>)
    ensures
        r@.len() == (if config_exists {
            0int
        } else {
            1int
        }) + (if workflow_exists {
            0int
        } else {
            1int
        }),
        !config_exists ==> r@[0].directory is None && r@[0].path@ == CONFIG_PATH@
            && r@[0].contents == config,
        !workflow_exists ==> {
            &&& r@.last().directory matches Some(d) && d@ == WORKFLOW_DIR@
            &&& r@.last().path@ == WORKFLOW_PATH@
            &&& r@.last().contents@ == WORKFLOW@
        },
{
    let mut files: Vec<NewFile> = Vec::new();
    if !config_exists {
        files.push(
            NewFile { directory: None, path: CONFIG_PATH.to_owned(), contents: config },
        );
    }
    let action: NotchAction = Default::default();
    match action.write_to_default_file(workflow_exists) {
        Some(file) => files.push(file),
        None => {},
    }
    files
}

} // verus!
