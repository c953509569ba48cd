# mkv_subscale

Inspects ASS/SSA subtitle tracks inside MKV containers and makes sure their
`[Script Info]` section sets `ScaledBorderAndShadow: yes`.

- `src/` is the library, verified with Verus:
  - `text`: the character-level model of the `str` operations used (`trim`, `lines`,
    `join`, ASCII case folding) and executable helpers proved against it;
  - `subtitles`: the fix applied to one script, specified by `fix_script`;
  - `subtitle_laws`: the fix is idempotent and ignores leading byte order marks;
  - `mkv`: choosing the tracks to fix from `mkvmerge -J` data, command lines for
    `mkvextract`/`mkvmerge`, and judging their exit status;
  - `processor`: the per-file pipeline as a state machine, and the run summary;
  - `scanner`, `storage`, `deps`, `cli`: target checks, block-device lookup from
    `/proc/mounts`, the tool check, and option-derived settings.
- `app/` is the command-line program: argument parsing, running the MKVToolNix
  programs, file and directory access, JSON decoding, threads and progress output.
