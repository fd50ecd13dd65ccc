# queenshead

The logic behind the Queen's Head, Stratford site generator, verified with Verus.

- `src/` is the library: content types, display times, the event list (filtered by
  date and ordered soonest first), content-hashed asset names and the record of which
  assets were referenced, page metadata, the nav and sitemap, the check that every
  reference in the written pages (absolute, or relative to its page) resolves, and the
  choice of what to delete from `dist/` after a build. Each public function states what it
  returns in its `ensures`; the properties that span functions are proof functions
  whose names begin with `law_`.
- `app/` is the program around it: it reads `src/content/site.toml` and `src/static/`,
  renders the Askama templates, writes `dist/`, walks it, and deletes the files and
  directories that `links::stale_files` and `links::empty_dirs` name.
- `tests/` runs the library on concrete values.

Three calls leave the library for other code, each behind a function whose contract is
taken on trust: SHA-256 from `sha2`, date parsing from `time`, and `String::push`.
