# tortordle

A Wordle game analyser. Given the guesses of a game and its answer, it colours
each guess, collects what the colours reveal, narrows down the possible
answers, and suggests better guesses.

The library under `src/` is written in Verus and verified:

- `letter`, `word`, `letter_set`, `alphagram`, `data_structures`: letters,
  five-letter words, sets of letters and sorted multisets of letters.
- `guess_coloring`, `colored_guess`: colouring a guess against the answer, and
  counting the colours.
- `knowledge`: what a player knows after coloured guesses, which words still
  agree with it, and how a word conflicts with it.
- `guess_suggestions`: colour counts and remaining-word counts of candidate
  guesses, their ordering and ranking.
- `game`: playing guesses against a known answer.
- `slice_subset`: a slice with a bit mask of the elements still present.
- `possibilities`: the possible answers and the word list they are read from.

Among the proved properties: the knowledge gained from coloured guesses never
rules out the answer the guesses were coloured against, the colour counts agree
with the colours shown, and a word has no conflict with the knowledge exactly
where the knowledge admits it.

The program under `app/` handles the command line, the terminal, the word list
file `WORDLE-ANSWERS.txt` (read from the working directory) and the scoring that
rests on floating point.
