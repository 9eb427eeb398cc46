# ad_skipper

The decision logic of an Android accessibility service that finds "skip" and
"close" buttons of advertisements and presses them, verified with Verus.

- `src/text.rs`: Unicode trimming, comma-separated lists (parse and join) and
  their round-trip laws.
- `src/config.rs`: the settings, their defaults, and their stored form.
- `src/keywords.rs`: the keyword regex set (`regex::RegexSet`) behind trusted
  wrappers, and the default keywords.
- `src/clock.rs`: wall-clock and monotonic-clock readings behind trusted wrappers.
- `src/engine.rs`: which windows are searched (enable flag, allow and refuse
  lists, cooldown), which node text counts as a skip button, and the match count.
- `src/walk.rs`: the depth-first walk over a window's node tree as a state
  machine: the caller performs each action (read labels, click, open a child,
  ...) and hands back the answer.
- `src/search.rs`: a model of the node tree, the recursive search it stands for,
  and the proofs that the walk reports exactly that search's result and ends.
- `src/logger.rs`: the bounded log of recent attempts and today's click count.
- `app/`: the JNI side: entry points, SharedPreferences, and the loop that
  answers the walk's actions from `AccessibilityNodeInfo` objects.
