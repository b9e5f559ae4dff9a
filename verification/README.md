# lotto_sim

A lottery simulator and analyser for Australian-style lotto games, with its
rules verified in Verus.

- `src/` is the verified library: binomial counts (`binomial`), number and
  currency formatting (`format`), game definitions (`config`), prize rules and
  the scoring of system and PowerHit tickets (`prize`), random draws
  (`draw`, over the trusted `rand` calls in `random`), simulation steps that
  stop on bankruptcy or a Division 1 win (`simulation`), batch summaries
  (`summary`), and the front end's game list, tickets and hot-number auto-pick
  (`app_state`, with its counting arguments in `hot`).
- `app/` is the desktop program: it reads `lotto_config.toml`, runs the draw
  loops on threads, and draws the window with `eframe`/`egui_plot`.

Money is held in whole units; the program uses thousandths of a dollar.
